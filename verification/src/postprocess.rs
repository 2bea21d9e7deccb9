//! Model-independent post-processing of detection and recognition outputs:
//! reading order of text boxes, overlap geometry, greedy suppression,
//! CTC collapsing and connected-region extraction.
use vstd::prelude::*;

use crate::sorting::{
    lemma_sort_sorted, lemma_sorted_range_permutation, spec_sorted_by, lemma_permutation_from_multiset, lemma_sort_contains, lemma_sort_multiset, sort_items_by_key,
    sorted_range_by_key, spec_is_permutation, spec_range, spec_sort_by_key, spec_sorted_range,
};
use crate::types::BBox;

pub use crate::components::{connected_regions, Region};
pub use crate::xycut::{try_xy_cut_order, xy_cut_order};

verus! {

/// Twice the vertical center of a box: `2 * y + height`.
pub open spec fn spec_center2(b: BBox) -> u64 {
    (2 * b.y + b.height) as u64
}

/// Doubled vertical centers of `boxes`, as sort keys.
pub open spec fn spec_center_keys(boxes: Seq<BBox>) -> Seq<u64> {
    boxes.map_values(|b: BBox| spec_center2(b))
}

/// Left edges of `boxes`, as sort keys.
pub open spec fn spec_left_keys(boxes: Seq<BBox>) -> Seq<u64> {
    boxes.map_values(|b: BBox| b.x as u64)
}

/// Box `i` belongs to the line started by box `first` when its vertical
/// center is at most half its own height away from the center of `first`.
pub open spec fn spec_same_line(boxes: Seq<BBox>, first: usize, i: usize) -> bool {
    let d = spec_center2(boxes[i as int]) - spec_center2(boxes[first as int]);
    -(boxes[i as int].height as int) <= d <= boxes[i as int].height
}

/// Splits `order` into lines: each box joins the current line when it is on
/// the same line as that line's first box, and starts a new line otherwise.
pub open spec fn spec_lines(boxes: Seq<BBox>, order: Seq<usize>) -> Seq<Seq<usize>>
    decreases order.len(),
{
    if order.len() == 0 {
        seq![]
    } else {
        let prev = spec_lines(boxes, order.drop_last());
        let i = order.last();
        if prev.len() > 0 && spec_same_line(boxes, prev.last()[0], i) {
            prev.update(prev.len() - 1, prev.last().push(i))
        } else {
            prev.push(seq![i])
        }
    }
}

/// The lines one after the other, each sorted left to right (stable).
pub open spec fn spec_flatten_lines(boxes: Seq<BBox>, lines: Seq<Seq<usize>>) -> Seq<usize>
    decreases lines.len(),
{
    if lines.len() == 0 {
        seq![]
    } else {
        spec_flatten_lines(boxes, lines.drop_last()) + spec_sort_by_key(
            lines.last(),
            spec_left_keys(boxes),
        )
    }
}

/// Reading order by line grouping: fewer than two boxes keep their order;
/// otherwise boxes sorted by vertical center (stable) are grouped into lines,
/// lines are read top to bottom and each line left to right.
pub open spec fn spec_reading_order(boxes: Seq<BBox>) -> Seq<usize> {
    if boxes.len() < 2 {
        spec_range(boxes.len())
    } else {
        spec_flatten_lines(boxes, spec_lines(boxes, spec_sorted_range(spec_center_keys(boxes))))
    }
}

fn center_keys(boxes: &[BBox]) -> (keys: Vec<u64>)
    ensures
        keys@ == spec_center_keys(boxes@),
{
    let mut keys: Vec<u64> = Vec::new();
    let mut i: usize = 0;
    while i < boxes.len()
        invariant
            i <= boxes.len(),
            keys@ =~= spec_center_keys(boxes@.subrange(0, i as int)),
        decreases boxes.len() - i,
    {
        let b = boxes[i];
        keys.push(2 * b.y as u64 + b.height as u64);
        i = i + 1;
    }
    assert(boxes@.subrange(0, boxes.len() as int) =~= boxes@);
    keys
}

fn left_keys(boxes: &[BBox]) -> (keys: Vec<u64>)
    ensures
        keys@ == spec_left_keys(boxes@),
{
    let mut keys: Vec<u64> = Vec::new();
    let mut i: usize = 0;
    while i < boxes.len()
        invariant
            i <= boxes.len(),
            keys@ =~= spec_left_keys(boxes@.subrange(0, i as int)),
        decreases boxes.len() - i,
    {
        keys.push(boxes[i].x as u64);
        i = i + 1;
    }
    assert(boxes@.subrange(0, boxes.len() as int) =~= boxes@);
    keys
}

/// Appends `line` sorted left to right to `out`.
fn push_line(out: &mut Vec<usize>, line: &Vec<usize>, lkeys: &Vec<u64>)
    requires
        forall|k: int| 0 <= k < line.len() ==> #[trigger] line@[k] < lkeys.len(),
    ensures
        final(out)@ == old(out)@ + spec_sort_by_key(line@, lkeys@),
{
    let sorted = sort_items_by_key(line, lkeys);
    let ghost start = out@;
    let mut i: usize = 0;
    while i < sorted.len()
        invariant
            i <= sorted.len(),
            out@ =~= start + sorted@.subrange(0, i as int),
        decreases sorted.len() - i,
    {
        out.push(sorted[i]);
        i = i + 1;
    }
    assert(sorted@.subrange(0, sorted.len() as int) =~= sorted@);
}

/// Indices of `boxes` in reading order: lines top to bottom, left to right
/// inside a line. Boxes are taken in order of vertical center; a box stays on
/// the current line when its center is within half its height of the
/// center of the line's first box.
pub fn reading_order(boxes: &[BBox]) -> (order: Vec<usize>)
    ensures
        order@ == spec_reading_order(boxes@),
{
    let n = boxes.len();
    if n < 2 {
        let mut ids: Vec<usize> = Vec::new();
        let mut i: usize = 0;
        while i < n
            invariant
                i <= n,
                ids@ =~= spec_range(i as nat),
            decreases n - i,
        {
            ids.push(i);
            i = i + 1;
        }
        return ids;
    }
    let ckeys = center_keys(boxes);
    let lkeys = left_keys(boxes);
    let order = sorted_range_by_key(&ckeys);
    proof {
        lemma_sort_contains(spec_range(ckeys.len() as nat), ckeys@);
        assert forall|k: int| 0 <= k < order.len() implies #[trigger] order@[k] < n by {
            assert(order@.contains(order@[k]));
            assert(spec_range(ckeys.len() as nat).contains(order@[k]));
        }
    }
    let mut out: Vec<usize> = Vec::new();
    let mut cur: Vec<usize> = Vec::new();
    let mut k: usize = 0;
    while k < n
        invariant
            k <= n,
            n == boxes.len(),
            lkeys.len() == n,
            lkeys@ == spec_left_keys(boxes@),
            order.len() == n,
            forall|q: int| 0 <= q < n ==> #[trigger] order@[q] < n,
            forall|q: int| 0 <= q < cur.len() ==> #[trigger] cur@[q] < n,
            k == 0 ==> cur.len() == 0 && out@.len() == 0,
            k > 0 ==> {
                let lines = spec_lines(boxes@, order@.subrange(0, k as int));
                &&& lines.len() > 0
                &&& cur@ == lines.last()
                &&& cur.len() > 0
                &&& out@ == spec_flatten_lines(boxes@, lines.drop_last())
            },
        decreases n - k,
    {
        let i = order[k];
        let ghost lines = spec_lines(boxes@, order@.subrange(0, k as int));
        let ghost next = spec_lines(boxes@, order@.subrange(0, k as int + 1));
        assert(order@.subrange(0, k as int + 1).drop_last() =~= order@.subrange(0, k as int));
        let mut same = false;
        if cur.len() > 0 {
            let f = cur[0];
            let bi = boxes[i];
            let bf = boxes[f];
            let ci = 2 * bi.y as u64 + bi.height as u64;
            let cf = 2 * bf.y as u64 + bf.height as u64;
            let hi = bi.height as u64;
            same = if ci >= cf { ci - cf <= hi } else { cf - ci <= hi };
            assert(same == spec_same_line(boxes@, f, i));
        }
        if same {
            cur.push(i);
            proof {
                assert(next == lines.update(lines.len() - 1, lines.last().push(i)));
                assert(next.drop_last() =~= lines.drop_last());
            }
        } else {
            if cur.len() > 0 {
                push_line(&mut out, &cur, &lkeys);
            }
            proof {
                assert(next == lines.push(seq![i]));
                assert(next.drop_last() =~= lines);
                if k > 0 {
                    assert(lines =~= lines.drop_last().push(lines.last()));
                }
            }
            cur = Vec::new();
            cur.push(i);
            assert(cur@ =~= seq![i]);
        }
        k = k + 1;
    }
    assert(order@.subrange(0, n as int) =~= order@);
    proof {
        let lines = spec_lines(boxes@, order@);
        assert(lines =~= lines.drop_last().push(lines.last()));
    }
    push_line(&mut out, &cur, &lkeys);
    out
}

/// The lines one after the other, unsorted.
pub open spec fn spec_concat(lines: Seq<Seq<usize>>) -> Seq<usize>
    decreases lines.len(),
{
    if lines.len() == 0 {
        seq![]
    } else {
        spec_concat(lines.drop_last()) + lines.last()
    }
}

proof fn lemma_lines_concat(boxes: Seq<BBox>, order: Seq<usize>)
    ensures
        spec_concat(spec_lines(boxes, order)) == order,
        order.len() > 0 ==> spec_lines(boxes, order).len() > 0,
    decreases order.len(),
{
    if order.len() > 0 {
        let prev = spec_lines(boxes, order.drop_last());
        let i = order.last();
        lemma_lines_concat(boxes, order.drop_last());
        let cur = spec_lines(boxes, order);
        if prev.len() > 0 && spec_same_line(boxes, prev.last()[0], i) {
            assert(cur.drop_last() =~= prev.drop_last());
            assert(prev =~= prev.drop_last().push(prev.last()));
            assert(spec_concat(prev) == spec_concat(prev.drop_last()) + prev.last());
            assert(spec_concat(cur) =~= spec_concat(prev) + seq![i]);
        } else {
            assert(cur.drop_last() =~= prev);
            assert(spec_concat(cur) =~= spec_concat(prev) + seq![i]);
        }
        assert(order.drop_last() + seq![i] =~= order);
    }
}

proof fn lemma_flatten_multiset(boxes: Seq<BBox>, lines: Seq<Seq<usize>>)
    ensures
        spec_flatten_lines(boxes, lines).to_multiset() =~= spec_concat(lines).to_multiset(),
    decreases lines.len(),
{
    broadcast use vstd::seq_lib::lemma_multiset_commutative;
    if lines.len() > 0 {
        lemma_flatten_multiset(boxes, lines.drop_last());
        lemma_sort_multiset(lines.last(), spec_left_keys(boxes));
    }
}

/// Reading order lists every box exactly once.
pub proof fn lemma_reading_order_permutation(boxes: Seq<BBox>)
    requires
        boxes.len() <= usize::MAX,
    ensures
        spec_is_permutation(spec_reading_order(boxes), boxes.len()),
{
    let n = boxes.len();
    if n < 2 {
        lemma_permutation_from_multiset(spec_range(n), n);
    } else {
        let keys = spec_center_keys(boxes);
        let order = spec_sorted_range(keys);
        lemma_sort_multiset(spec_range(n), keys);
        lemma_lines_concat(boxes, order);
        lemma_flatten_multiset(boxes, spec_lines(boxes, order));
        lemma_permutation_from_multiset(spec_reading_order(boxes), n);
    }
}

proof fn lemma_lines_props(boxes: Seq<BBox>, order: Seq<usize>, keys: Seq<u64>)
    requires
        spec_sorted_by(order, keys),
    ensures
        ({
            let lines = spec_lines(boxes, order);
            &&& forall|a: int| 0 <= a < lines.len() ==> #[trigger] lines[a].len() > 0
            &&& forall|a: int, k: int|
                0 <= a < lines.len() && 0 <= k < lines[a].len() ==> order.contains(#[trigger] lines[a][k])
            &&& forall|a: int, k: int|
                0 <= a < lines.len() && 0 <= k < lines[a].len() ==> spec_same_line(
                    boxes,
                    lines[a][0],
                    #[trigger] lines[a][k],
                )
            &&& forall|a: int, k: int, b: int, m: int|
                0 <= a < b < lines.len() && 0 <= k < lines[a].len() && 0 <= m < lines[b].len()
                    ==> keys[#[trigger] lines[a][k] as int] <= keys[#[trigger] lines[b][m] as int]
        }),
    decreases order.len(),
{
    if order.len() > 0 {
        let pre = order.drop_last();
        let i = order.last();
        assert forall|x: int, y: int| 0 <= x < y < pre.len() implies keys[#[trigger] pre[x] as int] <= keys[#[trigger] pre[y] as int] by {
            assert(pre[x] == order[x] && pre[y] == order[y]);
        }
        lemma_lines_props(boxes, pre, keys);
        let prev = spec_lines(boxes, pre);
        let lines = spec_lines(boxes, order);
        // Every box already placed comes before `i` in `order`.
        assert forall|a: int, k: int| 0 <= a < prev.len() && 0 <= k < prev[a].len() implies keys[#[trigger] prev[a][k] as int] <= keys[i as int] && order.contains(prev[a][k]) by {
            assert(pre.contains(prev[a][k]));
            let t = choose|t: int| 0 <= t < pre.len() && pre[t] == prev[a][k];
            assert(order[t] == prev[a][k]);
            assert(keys[order[t] as int] <= keys[order[order.len() - 1] as int]);
        }
        assert(order[order.len() - 1] == i);
        assert(order.contains(i));
        if prev.len() > 0 && spec_same_line(boxes, prev.last()[0], i) {
            let last = prev.len() - 1;
            let nl = prev.last().push(i);
            assert(lines == prev.update(last, nl));
            assert forall|a: int| 0 <= a < lines.len() implies #[trigger] lines[a].len() > 0 by {
                if a < last {
                    assert(lines[a] == prev[a]);
                }
            }
            assert forall|a: int, k: int| 0 <= a < lines.len() && 0 <= k < lines[a].len() implies order.contains(#[trigger] lines[a][k]) && spec_same_line(
                boxes,
                lines[a][0],
                lines[a][k],
            ) by {
                if a < last {
                    assert(lines[a] == prev[a]);
                } else if k < nl.len() - 1 {
                    assert(lines[a][k] == prev[a][k]);
                    assert(lines[a][0] == prev[a][0]);
                } else {
                    assert(lines[a][0] == prev[a][0]);
                    assert(lines[a][k] == i);
                }
            }
            assert forall|a: int, k: int, b: int, m: int|
                0 <= a < b < lines.len() && 0 <= k < lines[a].len() && 0 <= m < lines[b].len() implies keys[#[trigger] lines[a][k] as int] <= keys[#[trigger] lines[b][m] as int] by {
                assert(lines[a] == prev[a]);
                if b < last {
                    assert(lines[b] == prev[b]);
                } else if m < nl.len() - 1 {
                    assert(lines[b][m] == prev[b][m]);
                } else {
                    assert(lines[b][m] == i);
                }
            }
        } else {
            let nl = seq![i];
            assert(lines == prev.push(nl));
            assert forall|a: int| 0 <= a < lines.len() implies #[trigger] lines[a].len() > 0 by {
                if a < prev.len() {
                    assert(lines[a] == prev[a]);
                }
            }
            assert forall|a: int, k: int| 0 <= a < lines.len() && 0 <= k < lines[a].len() implies order.contains(#[trigger] lines[a][k]) && spec_same_line(
                boxes,
                lines[a][0],
                lines[a][k],
            ) by {
                if a < prev.len() {
                    assert(lines[a] == prev[a]);
                } else {
                    assert(lines[a][k] == i);
                    assert(lines[a][0] == i);
                }
            }
            assert forall|a: int, k: int, b: int, m: int|
                0 <= a < b < lines.len() && 0 <= k < lines[a].len() && 0 <= m < lines[b].len() implies keys[#[trigger] lines[a][k] as int] <= keys[#[trigger] lines[b][m] as int] by {
                assert(lines[a] == prev[a]);
                if b < prev.len() {
                    assert(lines[b] == prev[b]);
                } else {
                    assert(lines[b][m] == i);
                }
            }
        }
    }
}

/// Reading order goes line by line: boxes sorted by vertical center are
/// grouped into lines, every box of a line is on the line of its first box,
/// every box of a line lies no lower (by center) than any box of a later
/// line, and each line is read left to right.
pub proof fn lemma_reading_order_lines(boxes: Seq<BBox>)
    requires
        boxes.len() <= usize::MAX,
    ensures
        ({
            let lines = spec_lines(boxes, spec_sorted_range(spec_center_keys(boxes)));
            &&& boxes.len() >= 2 ==> spec_reading_order(boxes) == spec_flatten_lines(boxes, lines)
            &&& forall|a: int| 0 <= a < lines.len() ==> #[trigger] lines[a].len() > 0
            &&& forall|a: int, k: int|
                0 <= a < lines.len() && 0 <= k < lines[a].len() ==> #[trigger] lines[a][k] < boxes.len()
                    && spec_same_line(boxes, lines[a][0], lines[a][k])
            &&& forall|a: int, k: int, b: int, m: int|
                0 <= a < b < lines.len() && 0 <= k < lines[a].len() && 0 <= m < lines[b].len()
                    ==> spec_center2(boxes[#[trigger] lines[a][k] as int]) <= spec_center2(
                    boxes[#[trigger] lines[b][m] as int],
                )
            &&& forall|a: int, i: int, j: int|
                0 <= a < lines.len() && 0 <= i < j < lines[a].len() ==> boxes[#[trigger] spec_sort_by_key(
                    lines[a],
                    spec_left_keys(boxes),
                )[i] as int].x <= boxes[#[trigger] spec_sort_by_key(lines[a], spec_left_keys(boxes))[j] as int].x
        }),
{
    let keys = spec_center_keys(boxes);
    let order = spec_sorted_range(keys);
    let lines = spec_lines(boxes, order);
    let lk = spec_left_keys(boxes);
    lemma_sort_sorted(spec_range(boxes.len()), keys);
    lemma_sorted_range_permutation(keys);
    lemma_lines_props(boxes, order, keys);
    assert forall|a: int, k: int| 0 <= a < lines.len() && 0 <= k < lines[a].len() implies #[trigger] lines[a][k] < boxes.len() by {
        assert(order.contains(lines[a][k]));
        let t = choose|t: int| 0 <= t < order.len() && order[t] == lines[a][k];
        assert(order[t] < boxes.len());
    }
    assert forall|a: int, k: int, b: int, m: int|
        0 <= a < b < lines.len() && 0 <= k < lines[a].len() && 0 <= m < lines[b].len() implies spec_center2(boxes[#[trigger] lines[a][k] as int]) <= spec_center2(
        boxes[#[trigger] lines[b][m] as int],
    ) by {
        assert(lines[a][k] < boxes.len() && lines[b][m] < boxes.len());
        assert(keys[lines[a][k] as int] <= keys[lines[b][m] as int]);
    }
    assert forall|a: int, i: int, j: int|
        0 <= a < lines.len() && 0 <= i < j < lines[a].len() implies boxes[#[trigger] spec_sort_by_key(lines[a], lk)[i] as int].x
        <= boxes[#[trigger] spec_sort_by_key(lines[a], lk)[j] as int].x by {
        let srt = spec_sort_by_key(lines[a], lk);
        lemma_sort_sorted(lines[a], lk);
        lemma_sort_contains(lines[a], lk);
        assert(srt.contains(srt[i]) && srt.contains(srt[j]));
        assert(lines[a].contains(srt[i]) && lines[a].contains(srt[j]));
        let ti = choose|t: int| 0 <= t < lines[a].len() && lines[a][t] == srt[i];
        let tj = choose|t: int| 0 <= t < lines[a].len() && lines[a][t] == srt[j];
        assert(lines[a][ti] < boxes.len() && lines[a][tj] < boxes.len());
        assert(lk[srt[i] as int] <= lk[srt[j] as int]);
    }
}

/// `x` sits in line `c` of `lines`.
pub open spec fn spec_in_line(lines: Seq<Seq<usize>>, c: int, x: usize) -> bool {
    0 <= c < lines.len() && lines[c].contains(x)
}

proof fn lemma_concat_member(lines: Seq<Seq<usize>>, x: usize)
    requires
        spec_concat(lines).contains(x),
    ensures
        exists|c: int| #[trigger] spec_in_line(lines, c, x),
    decreases lines.len(),
{
    let pre = lines.drop_last();
    let a = spec_concat(pre);
    let t = choose|t: int| 0 <= t < spec_concat(lines).len() && spec_concat(lines)[t] == x;
    if t < a.len() {
        assert(a[t] == x);
        lemma_concat_member(pre, x);
        let c = choose|c: int| #[trigger] spec_in_line(pre, c, x);
        assert(pre[c] == lines[c]);
        assert(spec_in_line(lines, c, x));
    } else {
        assert(lines.last()[t - a.len()] == x);
        assert(spec_in_line(lines, lines.len() - 1, x));
    }
}

proof fn lemma_lines_members(boxes: Seq<BBox>, order: Seq<usize>)
    ensures
        forall|c: int, x: usize| #[trigger] spec_in_line(spec_lines(boxes, order), c, x) ==> order.contains(x),
    decreases order.len(),
{
    if order.len() > 0 {
        let pre = order.drop_last();
        let i = order.last();
        lemma_lines_members(boxes, pre);
        let prev = spec_lines(boxes, pre);
        let lines = spec_lines(boxes, order);
        assert forall|c: int, x: usize| #[trigger] spec_in_line(lines, c, x) implies order.contains(x) by {
            let t = choose|t: int| 0 <= t < lines[c].len() && lines[c][t] == x;
            if x == i {
                assert(order[order.len() - 1] == i);
            } else {
                if prev.len() > 0 && spec_same_line(boxes, prev.last()[0], i) {
                    if c == prev.len() - 1 {
                        assert(lines[c] == prev[c].push(i));
                        assert(prev[c][t] == x);
                    } else {
                        assert(lines[c] == prev[c]);
                    }
                } else {
                    assert(lines[c] == prev[c]);
                }
                assert(spec_in_line(prev, c, x));
                assert(pre.contains(x));
                let u = choose|u: int| 0 <= u < pre.len() && pre[u] == x;
                assert(order[u] == x);
            }
        }
    }
}

proof fn lemma_lines_unique(boxes: Seq<BBox>, order: Seq<usize>)
    requires
        order.no_duplicates(),
    ensures
        forall|c1: int, c2: int, x: usize|
            #[trigger] spec_in_line(spec_lines(boxes, order), c1, x) && #[trigger] spec_in_line(
                spec_lines(boxes, order),
                c2,
                x,
            ) ==> c1 == c2,
    decreases order.len(),
{
    if order.len() > 0 {
        let pre = order.drop_last();
        let i = order.last();
        assert forall|a: int, b: int| 0 <= a < pre.len() && 0 <= b < pre.len() && a != b implies pre[a] != pre[b] by {
            assert(pre[a] == order[a] && pre[b] == order[b]);
        }
        lemma_lines_unique(boxes, pre);
        lemma_lines_members(boxes, pre);
        let prev = spec_lines(boxes, pre);
        let lines = spec_lines(boxes, order);
        assert(!pre.contains(i)) by {
            if pre.contains(i) {
                let u = choose|u: int| 0 <= u < pre.len() && pre[u] == i;
                assert(order[u] == order[order.len() - 1]);
            }
        }
        let merged = prev.len() > 0 && spec_same_line(boxes, prev.last()[0], i);
        // Membership in `lines` is membership in `prev`, plus `i` in the last line.
        assert forall|c: int, x: usize| #[trigger] spec_in_line(lines, c, x) implies (x == i && c == lines.len() - 1)
            || (x != i && spec_in_line(prev, c, x)) by {
            let t = choose|t: int| 0 <= t < lines[c].len() && lines[c][t] == x;
            if merged {
                if c == prev.len() - 1 {
                    assert(lines[c] == prev[c].push(i));
                    if t < prev[c].len() {
                        assert(prev[c][t] == x);
                        assert(spec_in_line(prev, c, x));
                    }
                } else {
                    assert(lines[c] == prev[c]);
                    assert(spec_in_line(prev, c, x));
                }
            } else {
                if c < prev.len() {
                    assert(lines[c] == prev[c]);
                    assert(spec_in_line(prev, c, x));
                } else {
                    assert(lines[c] == seq![i]);
                }
            }
            if x == i && spec_in_line(prev, c, x) {
                assert(pre.contains(i));
            }
        }
    }
}

proof fn lemma_flatten_members(boxes: Seq<BBox>, lines: Seq<Seq<usize>>, x: usize)
    requires
        spec_flatten_lines(boxes, lines).contains(x),
    ensures
        exists|c: int| #[trigger] spec_in_line(lines, c, x),
    decreases lines.len(),
{
    let pre = lines.drop_last();
    let a = spec_flatten_lines(boxes, pre);
    let srt = spec_sort_by_key(lines.last(), spec_left_keys(boxes));
    let out = spec_flatten_lines(boxes, lines);
    let t = choose|t: int| 0 <= t < out.len() && out[t] == x;
    if t < a.len() {
        assert(a[t] == x);
        lemma_flatten_members(boxes, pre, x);
        let c = choose|c: int| #[trigger] spec_in_line(pre, c, x);
        assert(pre[c] == lines[c]);
        assert(spec_in_line(lines, c, x));
    } else {
        assert(srt[t - a.len()] == x);
        lemma_sort_contains(lines.last(), spec_left_keys(boxes));
        assert(srt.contains(x));
        assert(spec_in_line(lines, lines.len() - 1, x));
    }
}

proof fn lemma_flatten_line_order(boxes: Seq<BBox>, lines: Seq<Seq<usize>>, a: int, b: int, x: usize, y: usize)
    requires
        0 <= a < b < lines.len(),
        spec_in_line(lines, a, x),
        spec_in_line(lines, b, y),
        forall|c: int| #[trigger] spec_in_line(lines, c, x) ==> c == a,
        forall|c: int| #[trigger] spec_in_line(lines, c, y) ==> c == b,
    ensures
        forall|k1: int, k2: int|
            0 <= k1 < spec_flatten_lines(boxes, lines).len() && 0 <= k2 < spec_flatten_lines(boxes, lines).len()
                && #[trigger] spec_flatten_lines(boxes, lines)[k1] == x && #[trigger] spec_flatten_lines(boxes, lines)[k2]
                == y ==> k1 < k2,
    decreases lines.len(),
{
    let l = lines.len() - 1;
    let pre = lines.drop_last();
    let o = spec_flatten_lines(boxes, pre);
    let srt = spec_sort_by_key(lines.last(), spec_left_keys(boxes));
    let out = spec_flatten_lines(boxes, lines);
    lemma_sort_contains(lines.last(), spec_left_keys(boxes));
    assert forall|k: int| 0 <= k < out.len() && out[k] == x implies k < o.len() by {
        if k >= o.len() {
            assert(srt[k - o.len()] == x);
            assert(srt.contains(x));
            assert(spec_in_line(lines, l, x));
        }
    }
    if b < l {
        assert forall|c: int| #[trigger] spec_in_line(pre, c, x) implies c == a by {
            assert(pre[c] == lines[c]);
            assert(spec_in_line(lines, c, x));
        }
        assert forall|c: int| #[trigger] spec_in_line(pre, c, y) implies c == b by {
            assert(pre[c] == lines[c]);
            assert(spec_in_line(lines, c, y));
        }
        assert(pre[a] == lines[a] && pre[b] == lines[b]);
        lemma_flatten_line_order(boxes, pre, a, b, x, y);
        assert forall|k: int| 0 <= k < out.len() && out[k] == y implies k < o.len() by {
            if k >= o.len() {
                assert(srt[k - o.len()] == y);
                assert(srt.contains(y));
                assert(spec_in_line(lines, l, y));
            }
        }
        assert forall|k1: int, k2: int|
            0 <= k1 < out.len() && 0 <= k2 < out.len() && #[trigger] out[k1] == x && #[trigger] out[k2] == y implies k1
            < k2 by {
            assert(o[k1] == x && o[k2] == y);
        }
    } else {
        assert forall|k: int| 0 <= k < out.len() && out[k] == y implies k >= o.len() by {
            if k < o.len() {
                assert(o[k] == y);
                lemma_flatten_members(boxes, pre, y);
                let c = choose|c: int| #[trigger] spec_in_line(pre, c, y);
                assert(pre[c] == lines[c]);
                assert(spec_in_line(lines, c, y));
            }
        }
    }
}

/// A box that starts below the bottom edge of another box (its top `y` is
/// greater than the other's `y + height`) is read after it, wherever the
/// two boxes lie horizontally and whatever their widths.
pub proof fn lemma_reading_order_lower_box_later(boxes: Seq<BBox>, i: usize, j: usize)
    requires
        boxes.len() <= usize::MAX,
        i < boxes.len(),
        j < boxes.len(),
        boxes[j as int].y > boxes[i as int].y + boxes[i as int].height,
    ensures
        forall|k1: int, k2: int|
            0 <= k1 < spec_reading_order(boxes).len() && 0 <= k2 < spec_reading_order(boxes).len()
                && #[trigger] spec_reading_order(boxes)[k1] == i && #[trigger] spec_reading_order(boxes)[k2] == j
                ==> k1 < k2,
{
    let n = boxes.len();
    assert(i != j);
    let keys = spec_center_keys(boxes);
    let order = spec_sorted_range(keys);
    let lines = spec_lines(boxes, order);
    lemma_reading_order_lines(boxes);
    lemma_sorted_range_permutation(keys);
    lemma_lines_concat(boxes, order);
    lemma_lines_unique(boxes, order);
    lemma_sort_contains(spec_range(n), keys);
    assert(spec_range(n)[i as int] == i && spec_range(n)[j as int] == j);
    assert(order.contains(i) && order.contains(j));
    lemma_concat_member(lines, i);
    lemma_concat_member(lines, j);
    let a = choose|c: int| #[trigger] spec_in_line(lines, c, i);
    let b = choose|c: int| #[trigger] spec_in_line(lines, c, j);
    let ka = choose|k: int| 0 <= k < lines[a].len() && lines[a][k] == i;
    let kb = choose|k: int| 0 <= k < lines[b].len() && lines[b][k] == j;
    let ci = spec_center2(boxes[i as int]);
    let cj = spec_center2(boxes[j as int]);
    assert(cj > ci + boxes[i as int].height + boxes[j as int].height);
    if a == b {
        let f = lines[a][0];
        assert(spec_same_line(boxes, lines[a][0], lines[a][ka]));
        assert(spec_same_line(boxes, lines[a][0], lines[a][kb]));
        assert(false);
    } else if b < a {
        assert(spec_center2(boxes[lines[b][kb] as int]) <= spec_center2(boxes[lines[a][ka] as int]));
        assert(false);
    }
    if n >= 2 {
        lemma_flatten_line_order(boxes, lines, a, b, i, j);
    }
}

/// Area shared by two boxes (0 when they do not overlap).
pub open spec fn spec_intersection(a: BBox, b: BBox) -> int {
    let ix1: int = if a.x >= b.x { a.x as int } else { b.x as int };
    let iy1: int = if a.y >= b.y { a.y as int } else { b.y as int };
    let ix2: int = if a.x + a.width <= b.x + b.width { a.x + a.width } else { b.x + b.width };
    let iy2: int = if a.y + a.height <= b.y + b.height { a.y + a.height } else { b.y + b.height };
    if ix2 <= ix1 || iy2 <= iy1 {
        0
    } else {
        (ix2 - ix1) * (iy2 - iy1)
    }
}

/// The right and bottom edges of `b` fit in a `u32`.
pub open spec fn spec_box_fits(b: BBox) -> bool {
    b.x + b.width <= u32::MAX && b.y + b.height <= u32::MAX
}

/// Area in pixels shared by `a` and `b`; intersection over union is this
/// area over `a.area() + b.area()` minus it.
pub fn intersection_area(a: &BBox, b: &BBox) -> (inter: u64)
    requires
        spec_box_fits(*a),
        spec_box_fits(*b),
    ensures
        inter == spec_intersection(*a, *b),
{
    let ax2 = a.x + a.width;
    let ay2 = a.y + a.height;
    let bx2 = b.x + b.width;
    let by2 = b.y + b.height;
    let ix1 = if a.x >= b.x { a.x } else { b.x };
    let iy1 = if a.y >= b.y { a.y } else { b.y };
    let ix2 = if ax2 <= bx2 { ax2 } else { bx2 };
    let iy2 = if ay2 <= by2 { ay2 } else { by2 };
    if ix2 <= ix1 || iy2 <= iy1 {
        return 0;
    }
    let dx = ix2 - ix1;
    let dy = iy2 - iy1;
    assert(dx * dy <= u32::MAX * u32::MAX) by (nonlinear_arith)
        requires
            dx <= u32::MAX,
            dy <= u32::MAX,
    ;
    dx as u64 * dy as u64
}

/// Intersection is symmetric, never exceeds either box, and a box overlaps
/// itself in its whole area.
pub proof fn lemma_intersection_bounds(a: BBox, b: BBox)
    ensures
        spec_intersection(a, b) == spec_intersection(b, a),
        0 <= spec_intersection(a, b) <= a.width * a.height,
        spec_intersection(a, b) <= b.width * b.height,
        spec_intersection(a, a) == a.width * a.height,
{
    let ix1: int = if a.x >= b.x { a.x as int } else { b.x as int };
    let iy1: int = if a.y >= b.y { a.y as int } else { b.y as int };
    let ix2: int = if a.x + a.width <= b.x + b.width { a.x + a.width } else { b.x + b.width };
    let iy2: int = if a.y + a.height <= b.y + b.height { a.y + a.height } else { b.y + b.height };
    if !(ix2 <= ix1 || iy2 <= iy1) {
        let dx = ix2 - ix1;
        let dy = iy2 - iy1;
        assert(dx * dy <= a.width * a.height) by (nonlinear_arith)
            requires
                0 < dx <= a.width,
                0 < dy <= a.height,
        ;
        assert(dx * dy <= b.width * b.height) by (nonlinear_arith)
            requires
                0 < dx <= b.width,
                0 < dy <= b.height,
        ;
        assert(dx * dy >= 0) by (nonlinear_arith)
            requires
                0 < dx,
                0 < dy,
        ;
    }
    if a.width == 0 || a.height == 0 {
        assert(a.width * a.height == 0) by (nonlinear_arith)
            requires
                a.width == 0 || a.height == 0,
        ;
    }
}

/// Pixel positions (columns or rows) covered by both spans `[a0, a0 + al)`
/// and `[b0, b0 + bl)`.
pub open spec fn spec_shared(a0: int, al: int, b0: int, bl: int) -> Set<int> {
    Set::new(|p: int| a0 <= p < a0 + al && b0 <= p < b0 + bl)
}

proof fn lemma_shared_len(a0: int, al: int, b0: int, bl: int)
    ensures
        spec_shared(a0, al, b0, bl).finite(),
        spec_shared(a0, al, b0, bl).len() == ({
            let lo = if a0 >= b0 { a0 } else { b0 };
            let hi = if a0 + al <= b0 + bl { a0 + al } else { b0 + bl };
            if hi <= lo { 0 } else { hi - lo }
        }),
{
    let lo = if a0 >= b0 { a0 } else { b0 };
    let hi = if a0 + al <= b0 + bl { a0 + al } else { b0 + bl };
    if hi <= lo {
        assert(spec_shared(a0, al, b0, bl) =~= Set::<int>::empty());
    } else {
        vstd::set_lib::lemma_int_range(lo, hi);
        assert(spec_shared(a0, al, b0, bl) =~= vstd::set_lib::set_int_range(lo, hi));
    }
}

/// The shared area counts pixels: it is the number of columns both boxes
/// cover times the number of rows both boxes cover.
pub proof fn lemma_intersection_counts_pixels(a: BBox, b: BBox)
    ensures
        spec_shared(a.x as int, a.width as int, b.x as int, b.width as int).finite(),
        spec_shared(a.y as int, a.height as int, b.y as int, b.height as int).finite(),
        spec_intersection(a, b) == spec_shared(a.x as int, a.width as int, b.x as int, b.width as int).len()
            * spec_shared(a.y as int, a.height as int, b.y as int, b.height as int).len(),
{
    lemma_shared_len(a.x as int, a.width as int, b.x as int, b.width as int);
    lemma_shared_len(a.y as int, a.height as int, b.y as int, b.height as int);
    let cx = spec_shared(a.x as int, a.width as int, b.x as int, b.width as int).len();
    let cy = spec_shared(a.y as int, a.height as int, b.y as int, b.height as int).len();
    if cx == 0 || cy == 0 {
        assert(cx * cy == 0) by (nonlinear_arith)
            requires
                cx == 0 || cy == 0,
        ;
    }
}

/// `x` is suppressed by a kept box other than itself that it overlaps.
pub open spec fn spec_suppressed(overlaps: Seq<Vec<bool>>, kept: Seq<usize>, x: usize) -> bool {
    exists|k: int|
        0 <= k < kept.len() && kept[k] != x && #[trigger] overlaps[kept[k] as int]@[x as int]
}

/// Greedy suppression over the first `m` entries of `order`: an entry is kept
/// unless a box kept before it overlaps it.
pub open spec fn spec_suppress_keep(order: Seq<usize>, overlaps: Seq<Vec<bool>>, m: nat) -> Seq<usize>
    decreases m,
{
    if m == 0 {
        seq![]
    } else {
        let r = spec_suppress_keep(order, overlaps, (m - 1) as nat);
        let x = order[m - 1];
        if spec_suppressed(overlaps, r, x) { r } else { r.push(x) }
    }
}

/// Greedy non-maximum suppression: boxes are visited in `order` (best
/// first); a box is kept unless an already kept box overlaps it, where
/// `overlaps[i][j]` says whether kept box `i` suppresses box `j`.
/// Returns the kept boxes in visiting order.
pub fn suppress_overlaps(order: &Vec<usize>, overlaps: &Vec<Vec<bool>>) -> (keep: Vec<usize>)
    requires
        forall|k: int| 0 <= k < order.len() ==> #[trigger] order@[k] < overlaps.len(),
        forall|i: int| 0 <= i < overlaps.len() ==> #[trigger] overlaps@[i]@.len() == overlaps.len(),
    ensures
        keep@ == spec_suppress_keep(order@, overlaps@, order.len() as nat),
{
    let n = overlaps.len();
    let mut suppressed: Vec<bool> = Vec::new();
    let mut q: usize = 0;
    while q < n
        invariant
            q <= n,
            suppressed.len() == q,
            forall|r: int| 0 <= r < q ==> !suppressed@[r],
        decreases n - q,
    {
        suppressed.push(false);
        q = q + 1;
    }
    let mut keep: Vec<usize> = Vec::new();
    let mut t: usize = 0;
    while t < order.len()
        invariant
            t <= order.len(),
            n == overlaps.len(),
            suppressed.len() == n,
            forall|k: int| 0 <= k < order.len() ==> #[trigger] order@[k] < n,
            forall|i: int| 0 <= i < n ==> #[trigger] overlaps@[i]@.len() == n,
            keep@ == spec_suppress_keep(order@, overlaps@, t as nat),
            forall|k: int| 0 <= k < keep.len() ==> #[trigger] keep@[k] < n,
            forall|x: usize|
                x < n && #[trigger] order@.contains(x) ==> (suppressed@[x as int] <==> spec_suppressed(
                    overlaps@,
                    keep@,
                    x,
                )),
        decreases order.len() - t,
    {
        let i = order[t];
        proof {
            assert(order@.contains(i));
        }
        if !suppressed[i] {
            let ghost before = suppressed@;
            let ghost kept_before = keep@;
            keep.push(i);
            let row = &overlaps[i];
            let mut u: usize = 0;
            while u < order.len()
                invariant
                    u <= order.len(),
                    suppressed.len() == n,
                    i < n,
                    row@.len() == n,
                    row@ == overlaps@[i as int]@,
                    forall|k: int| 0 <= k < order.len() ==> #[trigger] order@[k] < n,
                    forall|x: usize|
                        x < n && #[trigger] order@.contains(x) ==> (suppressed@[x as int] <==> (
                        before[x as int] || (x != i && row@[x as int] && order@.subrange(
                            0,
                            u as int,
                        ).contains(x)))),
                decreases order.len() - u,
            {
                let j = order[u];
                proof {
                    assert forall|x: usize| #[trigger] order@.subrange(0, u as int + 1).contains(x)
                        <==> (order@.subrange(0, u as int).contains(x) || x == j) by {
                        let a = order@.subrange(0, u as int);
                        let b = order@.subrange(0, u as int + 1);
                        if b.contains(x) {
                            let z = choose|z: int| 0 <= z < b.len() && b[z] == x;
                            if z < u {
                                assert(a[z] == x);
                            }
                        }
                        if a.contains(x) {
                            let z = choose|z: int| 0 <= z < a.len() && a[z] == x;
                            assert(b[z] == x);
                        }
                        if x == j {
                            assert(b[u as int] == x);
                        }
                    }
                }
                if j != i && !suppressed[j] && row[j] {
                    suppressed.set(j, true);
                }
                u = u + 1;
            }
            proof {
                assert(order@.subrange(0, order.len() as int) =~= order@);
                let nk = keep@;
                assert(nk == kept_before.push(i));
                assert forall|x: usize|
                    x < n && #[trigger] order@.contains(x) implies (suppressed@[x as int] <==> spec_suppressed(
                    overlaps@,
                    nk,
                    x,
                )) by {
                    if spec_suppressed(overlaps@, nk, x) {
                        let k = choose|k: int|
                            0 <= k < nk.len() && nk[k] != x && #[trigger] overlaps@[nk[k] as int]@[x as int];
                        if k < kept_before.len() {
                            assert(kept_before[k] == nk[k]);
                            assert(spec_suppressed(overlaps@, kept_before, x));
                        }
                    }
                    if spec_suppressed(overlaps@, kept_before, x) {
                        let k = choose|k: int|
                            0 <= k < kept_before.len() && kept_before[k] != x
                                && #[trigger] overlaps@[kept_before[k] as int]@[x as int];
                        assert(nk[k] == kept_before[k]);
                    }
                    if x != i && overlaps@[i as int]@[x as int] {
                        assert(nk[kept_before.len() as int] == i);
                    }
                }
            }
        }
        proof {
            assert(order@.subrange(0, t as int + 1).drop_last() =~= order@.subrange(0, t as int));
        }
        t = t + 1;
        proof {
            assert(spec_suppress_keep(order@, overlaps@, t as nat) == (if spec_suppressed(
                overlaps@,
                spec_suppress_keep(order@, overlaps@, (t - 1) as nat),
                i,
            ) {
                spec_suppress_keep(order@, overlaps@, (t - 1) as nat)
            } else {
                spec_suppress_keep(order@, overlaps@, (t - 1) as nat).push(i)
            }));
        }
    }
    keep
}

proof fn lemma_suppress_keep_steps(order: Seq<usize>, overlaps: Seq<Vec<bool>>, m: nat)
    requires
        m <= order.len(),
    ensures
        forall|a: int|
            0 <= a < spec_suppress_keep(order, overlaps, m).len() ==> exists|i: int|
                0 <= i < m && order[i] == #[trigger] spec_suppress_keep(order, overlaps, m)[a],
        forall|a: int, b: int|
            0 <= a < b < spec_suppress_keep(order, overlaps, m).len() && #[trigger] spec_suppress_keep(
                order,
                overlaps,
                m,
            )[a] != #[trigger] spec_suppress_keep(order, overlaps, m)[b] ==> !overlaps[spec_suppress_keep(
                order,
                overlaps,
                m,
            )[a] as int]@[spec_suppress_keep(order, overlaps, m)[b] as int],
        forall|i: int|
            0 <= i < m ==> spec_suppress_keep(order, overlaps, m).contains(#[trigger] order[i])
                || spec_suppressed(overlaps, spec_suppress_keep(order, overlaps, m), order[i]),
        m > 0 ==> spec_suppress_keep(order, overlaps, m).len() > 0 && spec_suppress_keep(
            order,
            overlaps,
            m,
        )[0] == order[0],
    decreases m,
{
    if m > 0 {
        let pm = (m - 1) as nat;
        lemma_suppress_keep_steps(order, overlaps, pm);
        let r = spec_suppress_keep(order, overlaps, pm);
        let keep = spec_suppress_keep(order, overlaps, m);
        let x = order[m - 1];
        if spec_suppressed(overlaps, r, x) {
            assert(keep == r);
            assert forall|a: int| 0 <= a < keep.len() implies exists|i: int|
                0 <= i < m && order[i] == #[trigger] keep[a] by {
                let i = choose|i: int| 0 <= i < pm && order[i] == #[trigger] r[a];
            }
            assert forall|i: int| 0 <= i < m implies keep.contains(#[trigger] order[i])
                || spec_suppressed(overlaps, keep, order[i]) by {}
        } else {
            assert(keep == r.push(x));
            assert forall|a: int| 0 <= a < keep.len() implies exists|i: int|
                0 <= i < m && order[i] == #[trigger] keep[a] by {
                if a < r.len() {
                    assert(keep[a] == r[a]);
                    let i = choose|i: int| 0 <= i < pm && order[i] == #[trigger] r[a];
                } else {
                    assert(keep[a] == order[m - 1]);
                }
            }
            assert forall|a: int, b: int|
                0 <= a < b < keep.len() && #[trigger] keep[a] != #[trigger] keep[b] implies !overlaps[keep[a] as int]@[keep[b] as int] by {
                if b < r.len() {
                    assert(keep[a] == r[a] && keep[b] == r[b]);
                } else {
                    assert(keep[a] == r[a]);
                    assert(keep[b] == x);
                    if overlaps[r[a] as int]@[x as int] {
                        assert(spec_suppressed(overlaps, r, x));
                    }
                }
            }
            assert forall|i: int| 0 <= i < m implies keep.contains(#[trigger] order[i])
                || spec_suppressed(overlaps, keep, order[i]) by {
                if i == m - 1 {
                    assert(keep[r.len() as int] == x);
                } else if r.contains(order[i]) {
                    let z = choose|z: int| 0 <= z < r.len() && r[z] == order[i];
                    assert(keep[z] == order[i]);
                } else {
                    let k = choose|k: int|
                        0 <= k < r.len() && r[k] != order[i] && #[trigger] overlaps[r[k] as int]@[order[i] as int];
                    assert(keep[k] == r[k]);
                }
            }
            if pm > 0 {
                assert(keep[0] == r[0]);
            }
        }
    }
}

/// `x` is dropped because an entry visited before position `i` of `order`,
/// and kept, overlaps it.
pub open spec fn spec_dropped_for(order: Seq<usize>, overlaps: Seq<Vec<bool>>, keep: Seq<usize>, i: int) -> bool {
    exists|j: int|
        0 <= j < i && keep.contains(#[trigger] order[j]) && order[j] != order[i]
            && overlaps[order[j] as int]@[order[i] as int]
}

proof fn lemma_suppress_keep_order(order: Seq<usize>, overlaps: Seq<Vec<bool>>, m: nat)
    requires
        m <= order.len(),
    ensures
        ({
            let keep = spec_suppress_keep(order, overlaps, m);
            &&& forall|a: int, b: int|
                #![trigger keep[a], keep[b]]
                0 <= a < b < keep.len() ==> exists|i: int, j: int|
                    0 <= i < j < m && #[trigger] order[i] == keep[a] && #[trigger] order[j] == keep[b]
            &&& forall|i: int|
                0 <= i < m && !keep.contains(#[trigger] order[i]) ==> spec_dropped_for(order, overlaps, keep, i)
        }),
    decreases m,
{
    if m > 0 {
        let pm = (m - 1) as nat;
        lemma_suppress_keep_order(order, overlaps, pm);
        lemma_suppress_keep_steps(order, overlaps, pm);
        let r = spec_suppress_keep(order, overlaps, pm);
        let keep = spec_suppress_keep(order, overlaps, m);
        let x = order[m - 1];
        // Whatever `r` holds, `keep` holds.
        assert forall|y: usize| #[trigger] r.contains(y) implies keep.contains(y) by {
            let z = choose|z: int| 0 <= z < r.len() && r[z] == y;
            if !spec_suppressed(overlaps, r, x) {
                assert(keep == r.push(x));
                assert(keep[z] == y);
            }
        }
        if spec_suppressed(overlaps, r, x) {
            assert(keep == r);
            assert forall|i: int| 0 <= i < m && !keep.contains(#[trigger] order[i]) implies spec_dropped_for(
                order,
                overlaps,
                keep,
                i,
            ) by {
                if i == m - 1 {
                    let k = choose|k: int|
                        0 <= k < r.len() && r[k] != x && #[trigger] overlaps[r[k] as int]@[x as int];
                    let j = choose|j: int| 0 <= j < pm && order[j] == #[trigger] r[k];
                    assert(r.contains(r[k]));
                    assert(keep.contains(order[j]));
                } else {
                    assert(spec_dropped_for(order, overlaps, r, i));
                }
            }
        } else {
            assert(keep == r.push(x));
            assert forall|a: int, b: int|
                #![trigger keep[a], keep[b]]
                0 <= a < b < keep.len() implies exists|i: int, j: int|
                    0 <= i < j < m && #[trigger] order[i] == keep[a] && #[trigger] order[j] == keep[b] by {
                if b < r.len() {
                    assert(keep[a] == r[a] && keep[b] == r[b]);
                    let (i, j) = choose|i: int, j: int|
                        0 <= i < j < pm && #[trigger] order[i] == r[a] && #[trigger] order[j] == r[b];
                    assert(order[i] == keep[a] && order[j] == keep[b]);
                } else {
                    assert(keep[a] == r[a]);
                    let i = choose|i: int| 0 <= i < pm && order[i] == #[trigger] r[a];
                    assert(order[i] == keep[a] && order[m - 1] == keep[b]);
                }
            }
            assert forall|i: int| 0 <= i < m && !keep.contains(#[trigger] order[i]) implies spec_dropped_for(
                order,
                overlaps,
                keep,
                i,
            ) by {
                if i == m - 1 {
                    assert(keep[r.len() as int] == x);
                } else {
                    if r.contains(order[i]) {
                    }
                    let j = choose|j: int|
                        0 <= j < i && r.contains(#[trigger] order[j]) && order[j] != order[i]
                            && overlaps[order[j] as int]@[order[i] as int];
                    assert(keep.contains(order[j]));
                }
            }
        }
    }
}

/// Greedy suppression keeps what it should: the first box visited is kept;
/// every kept box comes from `order`; no kept box overlaps a box kept after
/// it; every box of `order` that is not kept is overlapped by a kept box
/// visited before it; and when `order` lists each box once, the kept boxes
/// are listed once each, in the order they were visited.
pub proof fn lemma_suppress_overlaps_greedy(order: Seq<usize>, overlaps: Seq<Vec<bool>>)
    ensures
        ({
            let keep = spec_suppress_keep(order, overlaps, order.len());
            &&& order.len() > 0 ==> keep.len() > 0 && keep[0] == order[0]
            &&& forall|a: int| 0 <= a < keep.len() ==> order.contains(#[trigger] keep[a])
            &&& forall|a: int, b: int|
                0 <= a < b < keep.len() && #[trigger] keep[a] != #[trigger] keep[b]
                    ==> !overlaps[keep[a] as int]@[keep[b] as int]
            &&& forall|x: usize|
                #[trigger] order.contains(x) && !keep.contains(x) ==> spec_suppressed(overlaps, keep, x)
            &&& forall|i: int|
                0 <= i < order.len() && !keep.contains(#[trigger] order[i]) ==> spec_dropped_for(
                    order,
                    overlaps,
                    keep,
                    i,
                )
            &&& order.no_duplicates() ==> keep.no_duplicates()
            &&& order.no_duplicates() ==> forall|a: int, b: int, i: int, j: int|
                0 <= a < b < keep.len() && 0 <= i < order.len() && 0 <= j < order.len()
                    && #[trigger] order[i] == #[trigger] keep[a] && #[trigger] order[j] == #[trigger] keep[b]
                    ==> i < j
        }),
{
    let keep = spec_suppress_keep(order, overlaps, order.len());
    lemma_suppress_keep_steps(order, overlaps, order.len());
    lemma_suppress_keep_order(order, overlaps, order.len());
    if order.no_duplicates() {
        assert forall|a: int, b: int, i: int, j: int|
            0 <= a < b < keep.len() && 0 <= i < order.len() && 0 <= j < order.len()
                && #[trigger] order[i] == #[trigger] keep[a] && #[trigger] order[j] == #[trigger] keep[b]
                implies i < j by {
            let (i2, j2) = choose|i2: int, j2: int|
                0 <= i2 < j2 < order.len() && #[trigger] order[i2] == keep[a] && #[trigger] order[j2] == keep[b];
            assert(i == i2);
            assert(j == j2);
        }
        assert forall|a: int, b: int| 0 <= a < keep.len() && 0 <= b < keep.len() && a != b implies keep[a] != keep[b] by {
            let (x, y) = if a < b { (a, b) } else { (b, a) };
            let (i2, j2) = choose|i2: int, j2: int|
                0 <= i2 < j2 < order.len() && #[trigger] order[i2] == keep[x] && #[trigger] order[j2] == keep[y];
        }
    }
    assert forall|a: int| 0 <= a < keep.len() implies order.contains(#[trigger] keep[a]) by {
        let i = choose|i: int| 0 <= i < order.len() && order[i] == #[trigger] keep[a];
    }
    assert forall|x: usize| #[trigger] order.contains(x) && !keep.contains(x) implies spec_suppressed(
        overlaps,
        keep,
        x,
    ) by {
        let i = choose|i: int| 0 <= i < order.len() && order[i] == x;
        assert(keep.contains(order[i]) || spec_suppressed(overlaps, keep, order[i]));
    }
}

/// The class at the step before `s` (`usize::MAX` before the first step).
pub open spec fn spec_ctc_prev(best: Seq<usize>, s: int) -> usize {
    if s == 0 { usize::MAX } else { best[s - 1] }
}

/// Step `s` emits a character: its class is not blank (0), differs from the
/// previous step's class, and has an entry in a dictionary of `dict_len`.
pub open spec fn spec_ctc_emits(best: Seq<usize>, dict_len: nat, s: int) -> bool {
    best[s] != 0 && best[s] != spec_ctc_prev(best, s) && best[s] - 1 < dict_len
}

/// Emitting steps among the first `t`, in order.
pub open spec fn spec_ctc_steps(best: Seq<usize>, dict_len: nat, t: nat) -> Seq<usize>
    decreases t,
{
    if t == 0 {
        seq![]
    } else {
        let r = spec_ctc_steps(best, dict_len, (t - 1) as nat);
        if spec_ctc_emits(best, dict_len, t - 1) { r.push((t - 1) as usize) } else { r }
    }
}

/// Text of the first `t` steps: class `k` maps to `dict[k - 1]`.
pub open spec fn spec_ctc_text(best: Seq<usize>, dict: Seq<String>, t: nat) -> Seq<char>
    decreases t,
{
    if t == 0 {
        seq![]
    } else {
        let r = spec_ctc_text(best, dict, (t - 1) as nat);
        if spec_ctc_emits(best, dict.len(), t - 1) {
            r + dict[best[t - 1] - 1]@
        } else {
            r
        }
    }
}

/// The dictionary entries of the classes at `steps`, one after the other.
pub open spec fn spec_step_entries(best: Seq<usize>, dict: Seq<String>, steps: Seq<usize>) -> Seq<char>
    decreases steps.len(),
{
    if steps.len() == 0 {
        seq![]
    } else {
        spec_step_entries(best, dict, steps.drop_last()) + dict[best[steps.last() as int] - 1]@
    }
}

/// The collapsed text is made of exactly the emitting steps: it is the
/// dictionary entries of their classes, in step order. (So a score taken
/// per emitting step belongs to one character entry each.)
pub proof fn lemma_ctc_text_from_steps(best: Seq<usize>, dict: Seq<String>, t: nat)
    requires
        t <= best.len(),
        t <= usize::MAX,
    ensures
        spec_ctc_text(best, dict, t) == spec_step_entries(best, dict, spec_ctc_steps(best, dict.len(), t)),
    decreases t,
{
    if t > 0 {
        lemma_ctc_text_from_steps(best, dict, (t - 1) as nat);
        let prev = spec_ctc_steps(best, dict.len(), (t - 1) as nat);
        if spec_ctc_emits(best, dict.len(), t - 1) {
            let cur = spec_ctc_steps(best, dict.len(), t);
            assert(cur == prev.push((t - 1) as usize));
            assert(cur.drop_last() =~= prev);
        }
    }
}

/// Greedy CTC collapsing of per-step best classes (blank is class 0): runs
/// of the same class collapse to one, blanks are dropped, class `k` maps to
/// `dict[k - 1]`, classes without an entry are skipped. Returns the text and
/// the steps that contributed a character, in order.
pub fn ctc_collapse(best: &Vec<usize>, dict: &Vec<String>) -> (out: (String, Vec<usize>))
    ensures
        out.0@ == spec_ctc_text(best@, dict@, best.len() as nat),
        out.1@ == spec_ctc_steps(best@, dict.len() as nat, best.len() as nat),
{
    let mut text = String::new();
    let mut steps: Vec<usize> = Vec::new();
    let mut prev: usize = usize::MAX;
    let mut s: usize = 0;
    while s < best.len()
        invariant
            s <= best.len(),
            prev == spec_ctc_prev(best@, s as int),
            text@ == spec_ctc_text(best@, dict@, s as nat),
            steps@ == spec_ctc_steps(best@, dict.len() as nat, s as nat),
        decreases best.len() - s,
    {
        let b = best[s];
        if b != 0 && b != prev {
            if b - 1 < dict.len() {
                text.append(dict[b - 1].as_str());
                steps.push(s);
            }
        }
        prev = b;
        s = s + 1;
    }
    (text, steps)
}

} // verus!

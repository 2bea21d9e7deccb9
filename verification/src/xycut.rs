//! Recursive XY-Cut reading order.
//!
//! Boxes are projected onto the Y axis and cut into horizontal bands where
//! the projection has gaps wider than `min_gap`; each band is projected onto
//! the X axis and cut into columns the same way. A band with one column is
//! read left to right; a band with several columns has each column read
//! recursively, left column first.
use vstd::prelude::*;

use crate::sorting::{
    lemma_range_no_duplicates, lemma_sort_contains, lemma_sort_sorted, lemma_sort_stable,
    lemma_sorted_range_permutation, sorted_range_by_key, spec_is_permutation, spec_range,
    spec_sorted_range,
};
use crate::types::BBox;

verus! {

/// A box as `(left, top, right, bottom)` with exclusive right and bottom edges.
pub type Rect = (u32, u32, u32, u32);

/// Start coordinate of `r` along `axis` (0 = x, otherwise y).
pub open spec fn rect_lo(r: Rect, axis: usize) -> u32 {
    if axis == 0 { r.0 } else { r.1 }
}

/// End coordinate (exclusive) of `r` along `axis`.
pub open spec fn rect_hi(r: Rect, axis: usize) -> u32 {
    if axis == 0 { r.2 } else { r.3 }
}

/// Largest end coordinate along `axis`, 0 for no boxes.
pub open spec fn spec_extent(boxes: Seq<Rect>, axis: usize) -> u32
    decreases boxes.len(),
{
    if boxes.len() == 0 {
        0
    } else {
        let m = spec_extent(boxes.drop_last(), axis);
        let e = rect_hi(boxes.last(), axis);
        if e > m { e } else { m }
    }
}

/// Number of boxes whose span along `axis` covers position `p`.
pub open spec fn spec_cover(boxes: Seq<Rect>, axis: usize, p: int) -> nat
    decreases boxes.len(),
{
    if boxes.len() == 0 {
        0
    } else {
        spec_cover(boxes.drop_last(), axis, p) + if rect_lo(boxes.last(), axis) <= p < rect_hi(
            boxes.last(),
            axis,
        ) {
            1nat
        } else {
            0nat
        }
    }
}

/// Coverage histogram along `axis` over positions `0..extent`.
pub open spec fn spec_projection(boxes: Seq<Rect>, axis: usize) -> Seq<u32> {
    Seq::new(spec_extent(boxes, axis) as nat, |p: int| spec_cover(boxes, axis, p) as u32)
}

/// Positions among the first `len` of `hist` whose value exceeds `min_value`, increasing.
pub open spec fn spec_above(hist: Seq<u32>, min_value: u32, len: nat) -> Seq<usize>
    decreases len,
{
    if len == 0 {
        seq![]
    } else {
        let r = spec_above(hist, min_value, (len - 1) as nat);
        if hist[len - 1] > min_value { r.push((len - 1) as usize) } else { r }
    }
}

/// Groups increasing positions into runs `(first, last + 1)`; a new run starts
/// where the distance to the previous position exceeds `gap`.
pub open spec fn spec_runs(idx: Seq<usize>, gap: usize) -> Seq<(usize, usize)>
    decreases idx.len(),
{
    if idx.len() == 0 {
        seq![]
    } else {
        let g = spec_runs(idx.drop_last(), gap);
        let l = idx.last();
        if idx.len() == 1 || l - idx[idx.len() - 2] > gap {
            g.push((l, (l + 1) as usize))
        } else {
            g.update(g.len() - 1, (g.last().0, (l + 1) as usize))
        }
    }
}

/// Runs of positions with value above `min_value`, split at gaps wider than `gap`.
pub open spec fn spec_split(hist: Seq<u32>, min_value: u32, gap: usize) -> Seq<(usize, usize)> {
    spec_runs(spec_above(hist, min_value, hist.len()), gap)
}

/// Positions of the boxes whose start along `axis` lies in `[lo, hi)`, increasing.
pub open spec fn spec_select(boxes: Seq<Rect>, axis: usize, lo: usize, hi: usize) -> Seq<usize>
    decreases boxes.len(),
{
    if boxes.len() == 0 {
        seq![]
    } else {
        let r = spec_select(boxes.drop_last(), axis, lo, hi);
        let s = rect_lo(boxes.last(), axis);
        if lo <= s && s < hi { r.push((boxes.len() - 1) as usize) } else { r }
    }
}

/// The elements of `v` at positions `sel`.
pub open spec fn spec_gather<T>(sel: Seq<usize>, v: Seq<T>) -> Seq<T> {
    sel.map_values(|i: usize| v[i as int])
}

/// Start coordinates along `axis`, as sort keys.
pub open spec fn spec_start_keys(boxes: Seq<Rect>, axis: usize) -> Seq<u64> {
    boxes.map_values(|r: Rect| rect_lo(r, axis) as u64)
}

/// XY-Cut of `boxes` (labelled by `indices`): the labels in reading order,
/// and whether every column cut met along the way was on fewer boxes than
/// the call that made it (without that, the recursion never ends).
pub open spec fn spec_xy_rec(boxes: Seq<Rect>, indices: Seq<usize>, gap: usize) -> (Seq<usize>, bool)
    decreases boxes.len(), 3nat, 0nat,
{
    if boxes.len() == 0 {
        (seq![], true)
    } else {
        let yo = spec_sorted_range(spec_start_keys(boxes, 1));
        let yb = spec_gather(yo, boxes);
        let yi = spec_gather(yo, indices);
        let rows = spec_split(spec_projection(yb, 1), 0, gap);
        spec_xy_rows(boxes.len(), yb, yi, rows, rows.len(), gap)
    }
}

/// The first `k` horizontal bands of a call on `n` boxes.
pub open spec fn spec_xy_rows(
    n: nat,
    yb: Seq<Rect>,
    yi: Seq<usize>,
    rows: Seq<(usize, usize)>,
    k: nat,
    gap: usize,
) -> (Seq<usize>, bool)
    decreases n, 2nat, k,
{
    if k == 0 || k > rows.len() {
        (seq![], true)
    } else {
        let a = spec_xy_rows(n, yb, yi, rows, (k - 1) as nat, gap);
        let b = spec_xy_band(n, yb, yi, rows[k - 1], gap);
        (a.0 + b.0, a.1 && b.1)
    }
}

/// One horizontal band: its boxes in x order, cut into columns.
pub open spec fn spec_xy_band(n: nat, yb: Seq<Rect>, yi: Seq<usize>, row: (usize, usize), gap: usize) -> (
    Seq<usize>,
    bool,
)
    decreases n, 1nat, 0nat,
{
    let sel = spec_select(yb, 1, row.0, row.1);
    let bb = spec_gather(sel, yb);
    let bi = spec_gather(sel, yi);
    let xo = spec_sorted_range(spec_start_keys(bb, 0));
    let xb = spec_gather(xo, bb);
    let xi = spec_gather(xo, bi);
    let cols = spec_split(spec_projection(xb, 0), 0, gap);
    if cols.len() == 0 {
        (seq![], true)
    } else if cols.len() == 1 {
        (xi, true)
    } else {
        spec_xy_cols(n, xb, xi, cols, cols.len(), gap)
    }
}

/// The first `k` columns of a band inside a call on `n` boxes.
pub open spec fn spec_xy_cols(
    n: nat,
    xb: Seq<Rect>,
    xi: Seq<usize>,
    cols: Seq<(usize, usize)>,
    k: nat,
    gap: usize,
) -> (Seq<usize>, bool)
    decreases n, 0nat, k,
{
    if k == 0 || k > cols.len() {
        (seq![], true)
    } else {
        let a = spec_xy_cols(n, xb, xi, cols, (k - 1) as nat, gap);
        let csel = spec_select(xb, 0, cols[k - 1].0, cols[k - 1].1);
        if csel.len() < n {
            let b = spec_xy_rec(spec_gather(csel, xb), spec_gather(csel, xi), gap);
            (a.0 + b.0, a.1 && b.1)
        } else {
            (a.0, false)
        }
    }
}


proof fn lemma_cover_bound(boxes: Seq<Rect>, axis: usize, p: int)
    ensures
        spec_cover(boxes, axis, p) <= boxes.len(),
    decreases boxes.len(),
{
    if boxes.len() > 0 {
        lemma_cover_bound(boxes.drop_last(), axis, p);
    }
}

/// Coverage histogram of `boxes` along `axis` (0 = x, otherwise y).
fn xy_projection(boxes: &Vec<Rect>, axis: usize) -> (hist: Vec<u32>)
    requires
        boxes.len() <= u32::MAX,
    ensures
        hist@ == spec_projection(boxes@, axis),
{
    let mut max: u32 = 0;
    let mut i: usize = 0;
    while i < boxes.len()
        invariant
            i <= boxes.len(),
            max == spec_extent(boxes@.subrange(0, i as int), axis),
        decreases boxes.len() - i,
    {
        let b = boxes[i];
        let e = if axis == 0 { b.2 } else { b.3 };
        if e > max {
            max = e;
        }
        assert(boxes@.subrange(0, i as int + 1).drop_last() =~= boxes@.subrange(0, i as int));
        i = i + 1;
    }
    assert(boxes@.subrange(0, boxes.len() as int) =~= boxes@);
    let mut hist: Vec<u32> = Vec::new();
    let mut q: usize = 0;
    while q < max as usize
        invariant
            q <= max,
            hist.len() == q,
            forall|r: int| 0 <= r < q ==> hist@[r] == 0,
        decreases max - q,
    {
        hist.push(0);
        q = q + 1;
    }
    i = 0;
    while i < boxes.len()
        invariant
            i <= boxes.len() <= u32::MAX,
            hist.len() == max,
            max == spec_extent(boxes@, axis),
            forall|r: int|
                0 <= r < max ==> hist@[r] == spec_cover(boxes@.subrange(0, i as int), axis, r),
        decreases boxes.len() - i,
    {
        let b = boxes[i];
        let (lo, hi) = if axis == 0 { (b.0, b.2) } else { (b.1, b.3) };
        let stop = if hi < max { hi } else { max };
        let ghost prefix = boxes@.subrange(0, i as int);
        let ghost next = boxes@.subrange(0, i as int + 1);
        assert(next.drop_last() =~= prefix);
        let mut p: usize = lo as usize;
        while p < stop as usize
            invariant
                lo <= p,
                p == lo || p <= stop,
                prefix.len() == i,
                stop <= max,
                hist.len() == max,
                i < boxes.len() <= u32::MAX,
                forall|r: int|
                    0 <= r < max ==> hist@[r] == spec_cover(prefix, axis, r) + if lo <= r < p {
                        1nat
                    } else {
                        0nat
                    },
            decreases stop - p,
        {
            proof {
                lemma_cover_bound(prefix, axis, p as int);
            }
            let v = hist[p];
            assert(v == spec_cover(prefix, axis, p as int));
            hist.set(p, v + 1);
            p = p + 1;
        }
        proof {
            assert(next.last() == b);
            assert(rect_lo(b, axis) == lo && rect_hi(b, axis) == hi);
            lemma_extent_bound(boxes@, axis, i as int);
            assert forall|r: int| 0 <= r < max implies hist@[r] == spec_cover(next, axis, r) by {
                assert(spec_cover(next, axis, r) == spec_cover(prefix, axis, r) + if lo <= r < hi {
                    1nat
                } else {
                    0nat
                });
            }
        }
        i = i + 1;
    }
    assert(boxes@.subrange(0, boxes.len() as int) =~= boxes@);
    assert(hist@ =~= spec_projection(boxes@, axis));
    hist
}

proof fn lemma_extent_bound(boxes: Seq<Rect>, axis: usize, k: int)
    requires
        0 <= k < boxes.len(),
    ensures
        rect_hi(boxes[k], axis) <= spec_extent(boxes, axis),
    decreases boxes.len(),
{
    if k < boxes.len() - 1 {
        lemma_extent_bound(boxes.drop_last(), axis, k);
    }
}

proof fn lemma_above_props(hist: Seq<u32>, min_value: u32, len: nat)
    requires
        len <= hist.len(),
        len <= usize::MAX,
    ensures
        forall|k: int|
            0 <= k < spec_above(hist, min_value, len).len() ==> #[trigger] spec_above(
                hist,
                min_value,
                len,
            )[k] < len,
        forall|j: int, k: int|
            0 <= j < k < spec_above(hist, min_value, len).len() ==> spec_above(
                hist,
                min_value,
                len,
            )[j] < spec_above(hist, min_value, len)[k],
    decreases len,
{
    if len > 0 {
        let r = spec_above(hist, min_value, (len - 1) as nat);
        lemma_above_props(hist, min_value, (len - 1) as nat);
        let a = spec_above(hist, min_value, len);
        if hist[len - 1] > min_value {
            assert(a == r.push((len - 1) as usize));
            assert forall|k: int| 0 <= k < a.len() implies #[trigger] a[k] < len by {
                if k < r.len() {
                    assert(a[k] == r[k]);
                }
            }
            assert forall|j: int, k: int| 0 <= j < k < a.len() implies a[j] < a[k] by {
                assert(a[j] == r[j]);
                if k < r.len() {
                    assert(a[k] == r[k]);
                }
            }
        }
    }
}

proof fn lemma_runs_nonempty(idx: Seq<usize>, gap: usize)
    ensures
        idx.len() > 0 ==> spec_runs(idx, gap).len() > 0,
        spec_runs(idx, gap).len() <= idx.len(),
    decreases idx.len(),
{
    if idx.len() > 0 {
        lemma_runs_nonempty(idx.drop_last(), gap);
    }
}

/// Runs of positions where `hist` exceeds `min_value`, split at gaps wider than `min_gap`.
fn xy_split(hist: &Vec<u32>, min_value: u32, min_gap: usize) -> (runs: Vec<(usize, usize)>)
    ensures
        runs@ == spec_split(hist@, min_value, min_gap),
{
    let mut runs: Vec<(usize, usize)> = Vec::new();
    let mut last: usize = 0;
    let mut any = false;
    let mut p: usize = 0;
    while p < hist.len()
        invariant
            p <= hist.len(),
            runs@ == spec_runs(spec_above(hist@, min_value, p as nat), min_gap),
            any == (spec_above(hist@, min_value, p as nat).len() > 0),
            any ==> last == spec_above(hist@, min_value, p as nat).last(),
        decreases hist.len() - p,
    {
        proof {
            lemma_above_props(hist@, min_value, p as nat);
            lemma_runs_nonempty(spec_above(hist@, min_value, p as nat), min_gap);
        }
        let ghost before = spec_above(hist@, min_value, p as nat);
        let ghost after = spec_above(hist@, min_value, p as nat + 1);
        if hist[p] > min_value {
            proof {
                assert(after == before.push(p));
                assert(after.drop_last() =~= before);
                if before.len() > 0 {
                    assert(after[after.len() - 2] == last);
                    assert(last < p);
                }
            }
            if !any || p - last > min_gap {
                runs.push((p, p + 1));
            } else {
                let k = runs.len() - 1;
                let (s0, _) = runs[k];
                runs.set(k, (s0, p + 1));
            }
            last = p;
            any = true;
        }
        p = p + 1;
    }
    runs
}

proof fn lemma_select_bound(boxes: Seq<Rect>, axis: usize, lo: usize, hi: usize)
    ensures
        forall|k: int|
            0 <= k < spec_select(boxes, axis, lo, hi).len() ==> #[trigger] spec_select(
                boxes,
                axis,
                lo,
                hi,
            )[k] < boxes.len(),
        spec_select(boxes, axis, lo, hi).len() <= boxes.len(),
    decreases boxes.len(),
{
    if boxes.len() > 0 {
        lemma_select_bound(boxes.drop_last(), axis, lo, hi);
    }
}

/// Positions of the boxes whose start along `axis` lies in `[lo, hi)`.
fn select_range(boxes: &Vec<Rect>, axis: usize, lo: usize, hi: usize) -> (sel: Vec<usize>)
    ensures
        sel@ == spec_select(boxes@, axis, lo, hi),
        forall|k: int| 0 <= k < sel.len() ==> #[trigger] sel@[k] < boxes.len(),
        sel.len() <= boxes.len(),
{
    let mut sel: Vec<usize> = Vec::new();
    let mut i: usize = 0;
    while i < boxes.len()
        invariant
            i <= boxes.len(),
            sel@ == spec_select(boxes@.subrange(0, i as int), axis, lo, hi),
        decreases boxes.len() - i,
    {
        let b = boxes[i];
        let s = if axis == 0 { b.0 } else { b.1 };
        assert(boxes@.subrange(0, i as int + 1).drop_last() =~= boxes@.subrange(0, i as int));
        if lo <= s as usize && (s as usize) < hi {
            sel.push(i);
        }
        i = i + 1;
    }
    assert(boxes@.subrange(0, boxes.len() as int) =~= boxes@);
    proof {
        lemma_select_bound(boxes@, axis, lo, hi);
    }
    sel
}

/// The elements of `v` at positions `sel`.
fn gather<T: Copy>(sel: &Vec<usize>, v: &Vec<T>) -> (out: Vec<T>)
    requires
        forall|k: int| 0 <= k < sel.len() ==> #[trigger] sel@[k] < v.len(),
    ensures
        out@ == spec_gather(sel@, v@),
{
    let mut out: Vec<T> = Vec::new();
    let mut i: usize = 0;
    while i < sel.len()
        invariant
            i <= sel.len(),
            forall|k: int| 0 <= k < sel.len() ==> #[trigger] sel@[k] < v.len(),
            out@ =~= spec_gather(sel@.subrange(0, i as int), v@),
        decreases sel.len() - i,
    {
        out.push(v[sel[i]]);
        i = i + 1;
    }
    assert(sel@.subrange(0, sel.len() as int) =~= sel@);
    out
}

/// Start coordinates along `axis`.
fn start_keys(boxes: &Vec<Rect>, axis: usize) -> (keys: Vec<u64>)
    ensures
        keys@ == spec_start_keys(boxes@, axis),
{
    let mut keys: Vec<u64> = Vec::new();
    let mut i: usize = 0;
    while i < boxes.len()
        invariant
            i <= boxes.len(),
            keys@ =~= spec_start_keys(boxes@.subrange(0, i as int), axis),
        decreases boxes.len() - i,
    {
        let b = boxes[i];
        keys.push(if axis == 0 { b.0 as u64 } else { b.1 as u64 });
        i = i + 1;
    }
    assert(boxes@.subrange(0, boxes.len() as int) =~= boxes@);
    keys
}

proof fn lemma_sorted_range_bound(keys: Seq<u64>)
    ensures
        spec_sorted_range(keys).len() == keys.len(),
        forall|k: int|
            0 <= k < spec_sorted_range(keys).len() ==> #[trigger] spec_sorted_range(keys)[k]
                < keys.len(),
{
    let items = spec_range(keys.len());
    lemma_sort_contains(items, keys);
    assert forall|k: int|
        0 <= k < spec_sorted_range(keys).len() implies #[trigger] spec_sorted_range(keys)[k]
        < keys.len() by {
        let x = spec_sorted_range(keys)[k];
        assert(spec_sorted_range(keys).contains(x));
        assert(items.contains(x));
    }
}

proof fn lemma_rows_flag(
    n: nat,
    yb: Seq<Rect>,
    yi: Seq<usize>,
    rows: Seq<(usize, usize)>,
    k: nat,
    j: nat,
    gap: usize,
)
    requires
        spec_xy_rows(n, yb, yi, rows, k, gap).1,
        j <= k <= rows.len(),
    ensures
        spec_xy_rows(n, yb, yi, rows, j, gap).1,
    decreases k,
{
    if j < k {
        lemma_rows_flag(n, yb, yi, rows, (k - 1) as nat, j, gap);
    }
}

proof fn lemma_cols_flag(
    n: nat,
    xb: Seq<Rect>,
    xi: Seq<usize>,
    cols: Seq<(usize, usize)>,
    k: nat,
    j: nat,
    gap: usize,
)
    requires
        spec_xy_cols(n, xb, xi, cols, k, gap).1,
        j <= k <= cols.len(),
    ensures
        spec_xy_cols(n, xb, xi, cols, j, gap).1,
    decreases k,
{
    if j < k {
        lemma_cols_flag(n, xb, xi, cols, (k - 1) as nat, j, gap);
    }
}

/// Appends every element of `v` to `res`.
fn append_all(res: &mut Vec<usize>, v: &Vec<usize>)
    ensures
        final(res)@ == old(res)@ + v@,
{
    let ghost start = res@;
    let mut i: usize = 0;
    while i < v.len()
        invariant
            i <= v.len(),
            res@ =~= start + v@.subrange(0, i as int),
        decreases v.len() - i,
    {
        res.push(v[i]);
        i = i + 1;
    }
    assert(v@.subrange(0, v.len() as int) =~= v@);
}

/// Appends the XY-Cut reading order of `boxes` (labelled by `indices`) to
/// `res`. Returns `false`, leaving `res` unspecified, where a column cut would
/// keep every box of the call (the recursion would not end). With a gap of at
/// least one pixel and boxes that each cover a pixel, it always succeeds and
/// appends every label once.
fn xy_cut_rec(boxes: &Vec<Rect>, indices: &Vec<usize>, res: &mut Vec<usize>, min_gap: usize) -> (ok: bool)
    requires
        boxes.len() == indices.len(),
        boxes.len() <= u32::MAX,
    ensures
        ok == spec_xy_rec(boxes@, indices@, min_gap).1,
        ok ==> final(res)@ == old(res)@ + spec_xy_rec(boxes@, indices@, min_gap).0,
        min_gap >= 1 && spec_boxes_proper(boxes@) && indices@.no_duplicates() ==> ok && spec_same_items(
            spec_xy_rec(boxes@, indices@, min_gap).0,
            indices@,
        ),
    decreases boxes.len(),
{
    proof {
        if min_gap >= 1 && spec_boxes_proper(boxes@) && indices@.no_duplicates() {
            lemma_xy_rec_permutes(boxes@, indices@, min_gap);
        }
    }
    if boxes.len() == 0 {
        assert(res@ =~= old(res)@ + spec_xy_rec(boxes@, indices@, min_gap).0);
        return true;
    }
    let ghost n = boxes.len() as nat;
    let ykeys = start_keys(boxes, 1);
    let yo = sorted_range_by_key(&ykeys);
    proof {
        lemma_sorted_range_bound(ykeys@);
    }
    let yb = gather(&yo, boxes);
    let yi = gather(&yo, indices);
    let yhist = xy_projection(&yb, 1);
    let rows = xy_split(&yhist, 0, min_gap);
    let ghost start = res@;
    assert(spec_xy_rec(boxes@, indices@, min_gap) == spec_xy_rows(
        n,
        yb@,
        yi@,
        rows@,
        rows.len() as nat,
        min_gap,
    ));
    let mut k: usize = 0;
    while k < rows.len()
        invariant
            k <= rows.len(),
            n == boxes.len(),
            n <= u32::MAX,
            yb.len() == n,
            yi.len() == n,
            spec_xy_rec(boxes@, indices@, min_gap) == spec_xy_rows(
                n,
                yb@,
                yi@,
                rows@,
                rows.len() as nat,
                min_gap,
            ),
            spec_xy_rows(n, yb@, yi@, rows@, k as nat, min_gap).1,
            res@ == start + spec_xy_rows(n, yb@, yi@, rows@, k as nat, min_gap).0,
            min_gap >= 1 && spec_boxes_proper(boxes@) && indices@.no_duplicates() ==> spec_xy_rec(
                boxes@,
                indices@,
                min_gap,
            ).1,
        decreases rows.len() - k,
    {
        let row = rows[k];
        let sel = select_range(&yb, 1, row.0, row.1);
        let bb = gather(&sel, &yb);
        let bi = gather(&sel, &yi);
        let xkeys = start_keys(&bb, 0);
        let xo = sorted_range_by_key(&xkeys);
        proof {
            lemma_sorted_range_bound(xkeys@);
        }
        let xb = gather(&xo, &bb);
        let xi = gather(&xo, &bi);
        let xhist = xy_projection(&xb, 0);
        let cols = xy_split(&xhist, 0, min_gap);
        let ghost band_start = res@;
        let ghost band = spec_xy_band(n, yb@, yi@, rows@[k as int], min_gap);
        if cols.len() == 1 {
            append_all(res, &xi);
        } else if cols.len() >= 2 {
            assert(band == spec_xy_cols(n, xb@, xi@, cols@, cols.len() as nat, min_gap));
            let mut c: usize = 0;
            while c < cols.len()
                invariant
                    c <= cols.len(),
                    n == boxes.len(),
                    n <= u32::MAX,
                    xb.len() == xi.len(),
                    xb.len() <= n,
                    band == spec_xy_cols(n, xb@, xi@, cols@, cols.len() as nat, min_gap),
                    k < rows.len(),
                    band == spec_xy_band(n, yb@, yi@, rows@[k as int], min_gap),
                    spec_xy_rows(n, yb@, yi@, rows@, k as nat, min_gap).1,
                    spec_xy_rec(boxes@, indices@, min_gap) == spec_xy_rows(
                        n,
                        yb@,
                        yi@,
                        rows@,
                        rows.len() as nat,
                        min_gap,
                    ),
                    spec_xy_cols(n, xb@, xi@, cols@, c as nat, min_gap).1,
                    min_gap >= 1 && spec_boxes_proper(boxes@) && indices@.no_duplicates() ==> spec_xy_rec(
                        boxes@,
                        indices@,
                        min_gap,
                    ).1,
                    res@ == band_start + spec_xy_cols(n, xb@, xi@, cols@, c as nat, min_gap).0,
                decreases cols.len() - c,
            {
                let col = cols[c];
                let csel = select_range(&xb, 0, col.0, col.1);
                if csel.len() >= boxes.len() {
                    proof {
                        assert(!spec_xy_cols(n, xb@, xi@, cols@, c as nat + 1, min_gap).1);
                        lemma_cols_flag_fails(n, xb@, xi@, cols@, cols.len() as nat, c as nat + 1, min_gap);
                        assert(!band.1);
                        assert(!spec_xy_rows(n, yb@, yi@, rows@, k as nat + 1, min_gap).1);
                        lemma_rows_flag_fails(n, yb@, yi@, rows@, rows.len() as nat, k as nat + 1, min_gap);
                    }
                    return false;
                }
                let cb = gather(&csel, &xb);
                let ci = gather(&csel, &xi);
                let ok = xy_cut_rec(&cb, &ci, res, min_gap);
                if !ok {
                    proof {
                        assert(!spec_xy_cols(n, xb@, xi@, cols@, c as nat + 1, min_gap).1);
                        lemma_cols_flag_fails(n, xb@, xi@, cols@, cols.len() as nat, c as nat + 1, min_gap);
                        assert(!band.1);
                        assert(!spec_xy_rows(n, yb@, yi@, rows@, k as nat + 1, min_gap).1);
                        lemma_rows_flag_fails(n, yb@, yi@, rows@, rows.len() as nat, k as nat + 1, min_gap);
                    }
                    return false;
                }
                c = c + 1;
                assert(res@ =~= band_start + spec_xy_cols(n, xb@, xi@, cols@, c as nat, min_gap).0);
            }
        } else {
            assert(res@ =~= band_start + band.0);
        }
        k = k + 1;
        assert(res@ =~= start + spec_xy_rows(n, yb@, yi@, rows@, k as nat, min_gap).0);
    }
    true
}

proof fn lemma_rows_flag_fails(
    n: nat,
    yb: Seq<Rect>,
    yi: Seq<usize>,
    rows: Seq<(usize, usize)>,
    k: nat,
    j: nat,
    gap: usize,
)
    requires
        !spec_xy_rows(n, yb, yi, rows, j, gap).1,
        j <= k <= rows.len(),
    ensures
        !spec_xy_rows(n, yb, yi, rows, k, gap).1,
{
    if spec_xy_rows(n, yb, yi, rows, k, gap).1 {
        lemma_rows_flag(n, yb, yi, rows, k, j, gap);
    }
}

proof fn lemma_cols_flag_fails(
    n: nat,
    xb: Seq<Rect>,
    xi: Seq<usize>,
    cols: Seq<(usize, usize)>,
    k: nat,
    j: nat,
    gap: usize,
)
    requires
        !spec_xy_cols(n, xb, xi, cols, j, gap).1,
        j <= k <= cols.len(),
    ensures
        !spec_xy_cols(n, xb, xi, cols, k, gap).1,
{
    if spec_xy_cols(n, xb, xi, cols, k, gap).1 {
        lemma_cols_flag(n, xb, xi, cols, k, j, gap);
    }
}

/// `v`, or 1 when `v` is 0.
pub open spec fn spec_at_least_one(v: u32) -> u32 {
    if v == 0 { 1 } else { v }
}

/// Whether the exclusive right and bottom edges of every box fit in a `u32`.
pub open spec fn spec_boxes_fit(boxes: Seq<BBox>) -> bool {
    forall|i: int|
        0 <= i < boxes.len() ==> {
            &&& #[trigger] boxes[i].x + spec_at_least_one(boxes[i].width) <= u32::MAX
            &&& boxes[i].y + spec_at_least_one(boxes[i].height) <= u32::MAX
        }
}

/// The box as `(left, top, right, bottom)`; empty extents count as one pixel.
pub open spec fn spec_rect_of(b: BBox) -> Rect {
    (
        b.x,
        b.y,
        (b.x + spec_at_least_one(b.width)) as u32,
        (b.y + spec_at_least_one(b.height)) as u32,
    )
}

pub open spec fn spec_rects(boxes: Seq<BBox>) -> Seq<Rect> {
    boxes.map_values(|b: BBox| spec_rect_of(b))
}

/// The ids below `n` that do not occur in `res`, increasing.
pub open spec fn spec_missing(res: Seq<usize>, n: nat) -> Seq<usize>
    decreases n,
{
    if n == 0 {
        seq![]
    } else {
        let m = spec_missing(res, (n - 1) as nat);
        if res.contains((n - 1) as usize) { m } else { m.push((n - 1) as usize) }
    }
}

/// Whether the XY-Cut recursion on `boxes` comes to an end: every column
/// cut it makes is on fewer boxes than the cut above it.
pub open spec fn spec_xy_cut_terminates(boxes: Seq<BBox>, min_gap: usize) -> bool {
    boxes.len() < 2 || spec_xy_rec(spec_rects(boxes), spec_range(boxes.len()), min_gap).1
}

/// XY-Cut reading order of `boxes`: fewer than two boxes keep their order;
/// otherwise the recursive cut, followed by the ids that no band or column
/// picked up, in increasing order.
pub open spec fn spec_xy_cut_order(boxes: Seq<BBox>, min_gap: usize) -> Seq<usize> {
    if boxes.len() < 2 {
        spec_range(boxes.len())
    } else {
        let res = spec_xy_rec(spec_rects(boxes), spec_range(boxes.len()), min_gap).0;
        if res.len() < boxes.len() {
            res + spec_missing(res, boxes.len())
        } else {
            res
        }
    }
}

/// Indices of `boxes` in reading order by recursive XY-Cut: horizontal bands
/// top to bottom, and inside a band the columns left to right, each column
/// read completely before the next. `min_gap` is the smallest empty run (in
/// pixels) that separates two bands or columns.
pub fn xy_cut_order(boxes: &[BBox], min_gap: usize) -> (order: Vec<usize>)
    requires
        boxes.len() <= u32::MAX,
        spec_boxes_fit(boxes@),
        spec_xy_cut_terminates(boxes@, min_gap),
    ensures
        order@ == spec_xy_cut_order(boxes@, min_gap),
{
    match try_xy_cut_order(boxes, min_gap) {
        Some(order) => order,
        None => {
            proof {
                assert(false);
            }
            Vec::new()
        },
    }
}

/// [`xy_cut_order`] for any `min_gap`: `None` exactly where the recursion
/// would not end (a column cut that keeps every box of its call, which a
/// `min_gap` of zero can produce).
pub fn try_xy_cut_order(boxes: &[BBox], min_gap: usize) -> (order: Option<Vec<usize>>)
    requires
        boxes.len() <= u32::MAX,
        spec_boxes_fit(boxes@),
    ensures
        order is Some <==> spec_xy_cut_terminates(boxes@, min_gap),
        order matches Some(o) ==> o@ == spec_xy_cut_order(boxes@, min_gap),
{
    let n = boxes.len();
    let mut ids: Vec<usize> = Vec::new();
    let mut i: usize = 0;
    while i < n
        invariant
            i <= n,
            n == boxes.len(),
            ids@ =~= spec_range(i as nat),
        decreases n - i,
    {
        ids.push(i);
        i = i + 1;
    }
    if n < 2 {
        return Some(ids);
    }
    let mut rects: Vec<Rect> = Vec::new();
    i = 0;
    while i < n
        invariant
            i <= n,
            n == boxes.len(),
            spec_boxes_fit(boxes@),
            rects@ =~= spec_rects(boxes@.subrange(0, i as int)),
        decreases n - i,
    {
        let b = boxes[i];
        assert(b == boxes@[i as int]);
        let w = if b.width == 0 { 1 } else { b.width };
        let h = if b.height == 0 { 1 } else { b.height };
        rects.push((b.x, b.y, b.x + w, b.y + h));
        i = i + 1;
    }
    assert(boxes@.subrange(0, n as int) =~= boxes@);
    let mut res: Vec<usize> = Vec::new();
    if !xy_cut_rec(&rects, &ids, &mut res, min_gap) {
        return None;
    }
    assert(res@ =~= spec_xy_rec(spec_rects(boxes@), spec_range(boxes.len() as nat), min_gap).0);
    if res.len() < n {
        let mut seen: Vec<bool> = Vec::new();
        i = 0;
        while i < n
            invariant
                i <= n,
                seen.len() == i,
                forall|q: int| 0 <= q < i ==> !seen@[q],
            decreases n - i,
        {
            seen.push(false);
            i = i + 1;
        }
        let mut j: usize = 0;
        while j < res.len()
            invariant
                j <= res.len(),
                seen.len() == n,
                forall|q: int|
                    0 <= q < n ==> (seen@[q] <==> res@.subrange(0, j as int).contains(q as usize)),
            decreases res.len() - j,
        {
            let r = res[j];
            proof {
                let a = res@.subrange(0, j as int);
                let b = res@.subrange(0, j as int + 1);
                assert(b == a.push(r));
                assert forall|q: usize| #[trigger] b.contains(q) <==> (a.contains(q) || q == r) by {
                    if b.contains(q) && q != r {
                        let t = choose|t: int| 0 <= t < b.len() && b[t] == q;
                        assert(a[t] == q);
                    }
                    if a.contains(q) {
                        let t = choose|t: int| 0 <= t < a.len() && a[t] == q;
                        assert(b[t] == q);
                    }
                    if q == r {
                        assert(b[j as int] == q);
                    }
                }
            }
            if r < n {
                seen.set(r, true);
            }
            j = j + 1;
        }
        assert(res@.subrange(0, res.len() as int) =~= res@);
        let ghost base = res@;
        i = 0;
        while i < n
            invariant
                i <= n,
                seen.len() == n,
                forall|q: int| 0 <= q < n ==> (seen@[q] <==> base.contains(q as usize)),
                res@ == base + spec_missing(base, i as nat),
            decreases n - i,
        {
            if !seen[i] {
                res.push(i);
            }
            i = i + 1;
            assert(res@ =~= base + spec_missing(base, i as nat));
        }
    }
    Some(res)
}

// ── Every box is read once ─────────────────────────────────────────

proof fn lemma_concat_distinct(a: Seq<usize>, b: Seq<usize>)
    requires
        a.no_duplicates(),
        b.no_duplicates(),
        forall|x: usize| #[trigger] a.contains(x) ==> !b.contains(x),
    ensures
        (a + b).no_duplicates(),
        forall|x: usize| #[trigger] (a + b).contains(x) <==> (a.contains(x) || b.contains(x)),
{
    let c = a + b;
    assert forall|i: int, j: int| 0 <= i < c.len() && 0 <= j < c.len() && i != j implies c[i]
        != c[j] by {
        if i < a.len() && j >= a.len() {
            assert(a.contains(c[i]));
            assert(b[j - a.len()] == c[j]);
            assert(b.contains(c[j]));
        } else if j < a.len() && i >= a.len() {
            assert(a.contains(c[j]));
            assert(b[i - a.len()] == c[i]);
            assert(b.contains(c[i]));
        } else if i >= a.len() && j >= a.len() {
            assert(c[i] == b[i - a.len()]);
            assert(c[j] == b[j - a.len()]);
        }
    }
    assert forall|x: usize| #[trigger] c.contains(x) <==> (a.contains(x) || b.contains(x)) by {
        if c.contains(x) {
            let i = choose|i: int| 0 <= i < c.len() && c[i] == x;
            if i < a.len() {
                assert(a[i] == x);
            } else {
                assert(b[i - a.len()] == x);
            }
        }
        if a.contains(x) {
            let i = choose|i: int| 0 <= i < a.len() && a[i] == x;
            assert(c[i] == x);
        }
        if b.contains(x) {
            let i = choose|i: int| 0 <= i < b.len() && b[i] == x;
            assert(c[i + a.len()] == x);
        }
    }
}

proof fn lemma_select_props(boxes: Seq<Rect>, axis: usize, lo: usize, hi: usize)
    requires
        boxes.len() <= usize::MAX,
    ensures
        spec_select(boxes, axis, lo, hi).no_duplicates(),
        spec_select(boxes, axis, lo, hi).len() <= boxes.len(),
        forall|k: int|
            0 <= k < spec_select(boxes, axis, lo, hi).len() ==> {
                let p = #[trigger] spec_select(boxes, axis, lo, hi)[k];
                &&& p < boxes.len()
                &&& lo <= rect_lo(boxes[p as int], axis) < hi
            },
    decreases boxes.len(),
{
    if boxes.len() > 0 {
        let pre = boxes.drop_last();
        let r = spec_select(pre, axis, lo, hi);
        lemma_select_props(pre, axis, lo, hi);
        let sel = spec_select(boxes, axis, lo, hi);
        let last = (boxes.len() - 1) as usize;
        assert forall|k: int| 0 <= k < r.len() implies {
            let p = #[trigger] r[k];
            &&& p < boxes.len() - 1
            &&& lo <= rect_lo(boxes[p as int], axis) < hi
        } by {
            assert(pre[r[k] as int] == boxes[r[k] as int]);
        }
        let s = rect_lo(boxes.last(), axis);
        if lo <= s && s < hi {
            assert(sel == r.push(last));
            assert forall|k: int| 0 <= k < sel.len() implies {
                let p = #[trigger] sel[k];
                &&& p < boxes.len()
                &&& lo <= rect_lo(boxes[p as int], axis) < hi
            } by {
                if k < r.len() {
                    assert(sel[k] == r[k]);
                } else {
                    assert(sel[k] == last);
                }
            }
            assert forall|i: int, j: int| 0 <= i < sel.len() && 0 <= j < sel.len() && i != j implies #[trigger] sel[i]
                != #[trigger] sel[j] by {
                if i < r.len() && j < r.len() {
                    assert(sel[i] == r[i] && sel[j] == r[j]);
                } else if i < r.len() {
                    assert(sel[i] == r[i]);
                } else if j < r.len() {
                    assert(sel[j] == r[j]);
                }
            }
        } else {
            assert(sel == r);
        }
    }
}

proof fn lemma_gather_distinct(sel: Seq<usize>, v: Seq<usize>)
    requires
        sel.no_duplicates(),
        v.no_duplicates(),
        forall|k: int| 0 <= k < sel.len() ==> #[trigger] sel[k] < v.len(),
    ensures
        spec_gather(sel, v).no_duplicates(),
{
    let g = spec_gather(sel, v);
    assert forall|i: int, j: int| 0 <= i < g.len() && 0 <= j < g.len() && i != j implies g[i]
        != g[j] by {
        assert(sel[i] < v.len() && sel[j] < v.len());
        assert(sel[i] != sel[j]);
    }
}

proof fn lemma_runs_ordered(idx: Seq<usize>, gap: usize)
    requires
        forall|j: int, k: int| 0 <= j < k < idx.len() ==> idx[j] < idx[k],
        forall|k: int| 0 <= k < idx.len() ==> #[trigger] idx[k] < usize::MAX,
    ensures
        forall|a: int, b: int|
            0 <= a < b < spec_runs(idx, gap).len() ==> #[trigger] spec_runs(idx, gap)[a].1
                <= #[trigger] spec_runs(idx, gap)[b].0,
        forall|a: int|
            0 <= a < spec_runs(idx, gap).len() ==> #[trigger] spec_runs(idx, gap)[a].0 < spec_runs(
                idx,
                gap,
            )[a].1,
        idx.len() > 0 ==> spec_runs(idx, gap).len() > 0 && spec_runs(idx, gap).last().1 == idx.last()
            + 1,
    decreases idx.len(),
{
    if idx.len() > 0 {
        let pre = idx.drop_last();
        lemma_runs_ordered(pre, gap);
        lemma_runs_nonempty(pre, gap);
        let g = spec_runs(pre, gap);
        let r = spec_runs(idx, gap);
        let l = idx.last();
        if idx.len() == 1 || l - idx[idx.len() - 2] > gap {
            assert(r == g.push((l, (l + 1) as usize)));
            if pre.len() > 0 {
                assert(g.last().1 == pre.last() + 1);
                assert(pre.last() == idx[idx.len() - 2]);
            }
            assert forall|a: int, b: int| 0 <= a < b < r.len() implies #[trigger] r[a].1 <= #[trigger] r[b].0 by {
                if b == g.len() {
                    assert(r[a] == g[a]);
                    if a < g.len() - 1 {
                        assert(g[a].1 <= g[g.len() - 1].0);
                    }
                } else {
                    assert(r[a] == g[a] && r[b] == g[b]);
                }
            }
            assert forall|a: int| 0 <= a < r.len() implies #[trigger] r[a].0 < r[a].1 by {
                if a < g.len() {
                    assert(r[a] == g[a]);
                }
            }
        } else {
            assert(pre.len() > 0);
            assert(r == g.update(g.len() - 1, (g.last().0, (l + 1) as usize)));
            assert(g.last().1 == pre.last() + 1);
            assert forall|a: int, b: int| 0 <= a < b < r.len() implies #[trigger] r[a].1 <= #[trigger] r[b].0 by {
                assert(r[a] == g[a]);
                if b < g.len() - 1 {
                    assert(r[b] == g[b]);
                }
            }
            assert forall|a: int| 0 <= a < r.len() implies #[trigger] r[a].0 < r[a].1 by {
                if a < g.len() - 1 {
                    assert(r[a] == g[a]);
                } else {
                    assert(g[a].0 < g[a].1);
                }
            }
        }
    }
}

/// Bands and columns come in increasing position and do not overlap: each
/// run of a projection ends no later than the next one starts.
pub proof fn lemma_split_ordered(hist: Seq<u32>, min_value: u32, gap: usize)
    requires
        hist.len() <= usize::MAX,
    ensures
        forall|a: int, b: int|
            0 <= a < b < spec_split(hist, min_value, gap).len() ==> #[trigger] spec_split(
                hist,
                min_value,
                gap,
            )[a].1 <= #[trigger] spec_split(hist, min_value, gap)[b].0,
{
    lemma_above_props(hist, min_value, hist.len());
    lemma_runs_ordered(spec_above(hist, min_value, hist.len()), gap);
}

/// Whether `v` lies in one of the first `k` runs.
pub open spec fn spec_in_runs(runs: Seq<(usize, usize)>, k: nat, v: int) -> bool {
    exists|m: int| 0 <= m < k && #[trigger] runs[m].0 <= v < runs[m].1
}

proof fn lemma_in_runs_disjoint(runs: Seq<(usize, usize)>, k: nat, v: int)
    requires
        0 < k <= runs.len(),
        forall|a: int, b: int| 0 <= a < b < runs.len() ==> #[trigger] runs[a].1 <= #[trigger] runs[b].0,
        spec_in_runs(runs, (k - 1) as nat, v),
    ensures
        !(runs[k - 1].0 <= v < runs[k - 1].1),
{
    let m = choose|m: int| 0 <= m < k - 1 && #[trigger] runs[m].0 <= v < runs[m].1;
    assert(runs[m].1 <= runs[k - 1].0);
}

proof fn lemma_in_runs_grow(runs: Seq<(usize, usize)>, k: nat, v: int)
    requires
        0 < k,
        spec_in_runs(runs, (k - 1) as nat, v) || (runs[k - 1].0 <= v < runs[k - 1].1),
    ensures
        spec_in_runs(runs, k, v),
{
    if spec_in_runs(runs, (k - 1) as nat, v) {
        let m = choose|m: int| 0 <= m < k - 1 && #[trigger] runs[m].0 <= v < runs[m].1;
        assert(runs[m].0 <= v < runs[m].1);
    } else {
        assert(runs[k - 1].0 <= v < runs[k - 1].1);
    }
}

proof fn lemma_rec_distinct(boxes: Seq<Rect>, indices: Seq<usize>, gap: usize)
    requires
        boxes.len() == indices.len(),
        indices.no_duplicates(),
        boxes.len() <= u32::MAX,
    ensures
        spec_xy_rec(boxes, indices, gap).0.no_duplicates(),
        forall|x: usize| #[trigger] spec_xy_rec(boxes, indices, gap).0.contains(x) ==> indices.contains(x),
    decreases boxes.len(), 3nat, 0nat,
{
    if boxes.len() > 0 {
        let n = boxes.len();
        let keys = spec_start_keys(boxes, 1);
        let yo = spec_sorted_range(keys);
        lemma_sorted_range_permutation(keys);
        let yb = spec_gather(yo, boxes);
        let yi = spec_gather(yo, indices);
        lemma_gather_distinct(yo, indices);
        let hist = spec_projection(yb, 1);
        let rows = spec_split(hist, 0, gap);
        lemma_split_ordered(hist, 0, gap);
        lemma_rows_distinct(n, yb, yi, rows, rows.len(), gap);
        let out = spec_xy_rec(boxes, indices, gap).0;
        assert forall|x: usize| #[trigger] out.contains(x) implies indices.contains(x) by {
            let p = choose|p: int| 0 <= p < yi.len() && #[trigger] yi[p] == x && spec_in_runs(rows, rows.len(), rect_lo(yb[p], 1) as int);
            assert(yi[p] == indices[yo[p] as int]);
            assert(indices[yo[p] as int] == x);
        }
    }
}

proof fn lemma_rows_distinct(
    n: nat,
    yb: Seq<Rect>,
    yi: Seq<usize>,
    rows: Seq<(usize, usize)>,
    k: nat,
    gap: usize,
)
    requires
        yb.len() == yi.len(),
        yb.len() <= n,
        n <= u32::MAX,
        yi.no_duplicates(),
        forall|a: int, b: int| 0 <= a < b < rows.len() ==> #[trigger] rows[a].1 <= #[trigger] rows[b].0,
        k <= rows.len(),
    ensures
        spec_xy_rows(n, yb, yi, rows, k, gap).0.no_duplicates(),
        forall|x: usize|
            #[trigger] spec_xy_rows(n, yb, yi, rows, k, gap).0.contains(x) ==> exists|p: int|
                0 <= p < yi.len() && #[trigger] yi[p] == x && spec_in_runs(rows, k, rect_lo(yb[p], 1) as int),
    decreases n, 2nat, k,
{
    if k > 0 {
        lemma_rows_distinct(n, yb, yi, rows, (k - 1) as nat, gap);
        lemma_band_distinct(n, yb, yi, rows[k - 1], gap);
        let a = spec_xy_rows(n, yb, yi, rows, (k - 1) as nat, gap).0;
        let b = spec_xy_band(n, yb, yi, rows[k - 1], gap).0;
        assert forall|x: usize| #[trigger] a.contains(x) implies !b.contains(x) by {
            if b.contains(x) {
                let p = choose|p: int|
                    0 <= p < yi.len() && #[trigger] yi[p] == x && spec_in_runs(rows, (k - 1) as nat, rect_lo(yb[p], 1) as int);
                let q = choose|q: int|
                    0 <= q < yi.len() && #[trigger] yi[q] == x && rows[k - 1].0 <= rect_lo(yb[q], 1)
                        < rows[k - 1].1;
                assert(p == q);
                lemma_in_runs_disjoint(rows, k, rect_lo(yb[p], 1) as int);
            }
        }
        lemma_concat_distinct(a, b);
        assert forall|x: usize| #[trigger] (a + b).contains(x) implies exists|p: int|
            0 <= p < yi.len() && #[trigger] yi[p] == x && spec_in_runs(rows, k, rect_lo(yb[p], 1) as int) by {
            if a.contains(x) {
                let p = choose|p: int|
                    0 <= p < yi.len() && #[trigger] yi[p] == x && spec_in_runs(rows, (k - 1) as nat, rect_lo(yb[p], 1) as int);
                lemma_in_runs_grow(rows, k, rect_lo(yb[p], 1) as int);
                assert(yi[p] == x);
            } else {
                let q = choose|q: int|
                    0 <= q < yi.len() && #[trigger] yi[q] == x && rows[k - 1].0 <= rect_lo(yb[q], 1)
                        < rows[k - 1].1;
                lemma_in_runs_grow(rows, k, rect_lo(yb[q], 1) as int);
                assert(yi[q] == x);
            }
        }
    }
}

proof fn lemma_band_distinct(n: nat, yb: Seq<Rect>, yi: Seq<usize>, row: (usize, usize), gap: usize)
    requires
        yb.len() == yi.len(),
        yb.len() <= n,
        n <= u32::MAX,
        yi.no_duplicates(),
    ensures
        spec_xy_band(n, yb, yi, row, gap).0.no_duplicates(),
        forall|x: usize|
            #[trigger] spec_xy_band(n, yb, yi, row, gap).0.contains(x) ==> exists|q: int|
                0 <= q < yi.len() && #[trigger] yi[q] == x && row.0 <= rect_lo(yb[q], 1) < row.1,
    decreases n, 1nat, 0nat,
{
    let sel = spec_select(yb, 1, row.0, row.1);
    lemma_select_props(yb, 1, row.0, row.1);
    let bb = spec_gather(sel, yb);
    let bi = spec_gather(sel, yi);
    lemma_gather_distinct(sel, yi);
    let keys = spec_start_keys(bb, 0);
    let xo = spec_sorted_range(keys);
    lemma_sorted_range_permutation(keys);
    let xb = spec_gather(xo, bb);
    let xi = spec_gather(xo, bi);
    lemma_gather_distinct(xo, bi);
    let xhist = spec_projection(xb, 0);
    let cols = spec_split(xhist, 0, gap);
    assert forall|t: int| 0 <= t < xi.len() implies exists|q: int|
        0 <= q < yi.len() && #[trigger] yi[q] == #[trigger] xi[t] && row.0 <= rect_lo(yb[q], 1) < row.1 by {
        let j = xo[t];
        assert(j < bb.len());
        let q = sel[j as int];
        assert(xi[t] == bi[j as int]);
        assert(bi[j as int] == yi[q as int]);
    }
    let out = spec_xy_band(n, yb, yi, row, gap).0;
    if cols.len() == 1 {
        assert(out == xi);
        assert forall|x: usize| #[trigger] out.contains(x) implies exists|q: int|
            0 <= q < yi.len() && #[trigger] yi[q] == x && row.0 <= rect_lo(yb[q], 1) < row.1 by {
            let t = choose|t: int| 0 <= t < xi.len() && xi[t] == x;
            assert(xi[t] == x);
        }
    } else if cols.len() >= 2 {
        lemma_split_ordered(xhist, 0, gap);
        lemma_cols_distinct(n, xb, xi, cols, cols.len(), gap);
        assert forall|x: usize| #[trigger] out.contains(x) implies exists|q: int|
            0 <= q < yi.len() && #[trigger] yi[q] == x && row.0 <= rect_lo(yb[q], 1) < row.1 by {
            let t = choose|t: int| 0 <= t < xi.len() && #[trigger] xi[t] == x && spec_in_runs(cols, cols.len(), rect_lo(xb[t], 0) as int);
            assert(xi[t] == x);
        }
    }
}

proof fn lemma_cols_distinct(
    n: nat,
    xb: Seq<Rect>,
    xi: Seq<usize>,
    cols: Seq<(usize, usize)>,
    k: nat,
    gap: usize,
)
    requires
        xb.len() == xi.len(),
        xb.len() <= n,
        n <= u32::MAX,
        xi.no_duplicates(),
        forall|a: int, b: int| 0 <= a < b < cols.len() ==> #[trigger] cols[a].1 <= #[trigger] cols[b].0,
        k <= cols.len(),
    ensures
        spec_xy_cols(n, xb, xi, cols, k, gap).0.no_duplicates(),
        forall|x: usize|
            #[trigger] spec_xy_cols(n, xb, xi, cols, k, gap).0.contains(x) ==> exists|t: int|
                0 <= t < xi.len() && #[trigger] xi[t] == x && spec_in_runs(cols, k, rect_lo(xb[t], 0) as int),
    decreases n, 0nat, k,
{
    if k > 0 {
        lemma_cols_distinct(n, xb, xi, cols, (k - 1) as nat, gap);
        let a = spec_xy_cols(n, xb, xi, cols, (k - 1) as nat, gap).0;
        let c = cols[k - 1];
        let csel = spec_select(xb, 0, c.0, c.1);
        if csel.len() < n {
            lemma_select_props(xb, 0, c.0, c.1);
            let cb = spec_gather(csel, xb);
            let ci = spec_gather(csel, xi);
            lemma_gather_distinct(csel, xi);
            lemma_rec_distinct(cb, ci, gap);
            let b = spec_xy_rec(cb, ci, gap).0;
            assert forall|x: usize| #[trigger] b.contains(x) implies exists|t: int|
                0 <= t < xi.len() && #[trigger] xi[t] == x && c.0 <= rect_lo(xb[t], 0) < c.1 by {
                assert(ci.contains(x));
                let j = choose|j: int| 0 <= j < ci.len() && ci[j] == x;
                let t = csel[j];
                assert(ci[j] == xi[t as int]);
            }
            assert forall|x: usize| #[trigger] a.contains(x) implies !b.contains(x) by {
                if b.contains(x) {
                    let p = choose|p: int|
                        0 <= p < xi.len() && #[trigger] xi[p] == x && spec_in_runs(cols, (k - 1) as nat, rect_lo(xb[p], 0) as int);
                    let q = choose|q: int|
                        0 <= q < xi.len() && #[trigger] xi[q] == x && c.0 <= rect_lo(xb[q], 0) < c.1;
                    assert(p == q);
                    lemma_in_runs_disjoint(cols, k, rect_lo(xb[p], 0) as int);
                }
            }
            lemma_concat_distinct(a, b);
            assert forall|x: usize| #[trigger] (a + b).contains(x) implies exists|t: int|
                0 <= t < xi.len() && #[trigger] xi[t] == x && spec_in_runs(cols, k, rect_lo(xb[t], 0) as int) by {
                if a.contains(x) {
                    let p = choose|p: int|
                        0 <= p < xi.len() && #[trigger] xi[p] == x && spec_in_runs(cols, (k - 1) as nat, rect_lo(xb[p], 0) as int);
                    lemma_in_runs_grow(cols, k, rect_lo(xb[p], 0) as int);
                    assert(xi[p] == x);
                } else {
                    let q = choose|q: int|
                        0 <= q < xi.len() && #[trigger] xi[q] == x && c.0 <= rect_lo(xb[q], 0) < c.1;
                    lemma_in_runs_grow(cols, k, rect_lo(xb[q], 0) as int);
                    assert(xi[q] == x);
                }
            }
        } else {
            assert forall|x: usize| #[trigger] a.contains(x) implies exists|t: int|
                0 <= t < xi.len() && #[trigger] xi[t] == x && spec_in_runs(cols, k, rect_lo(xb[t], 0) as int) by {
                let p = choose|p: int|
                    0 <= p < xi.len() && #[trigger] xi[p] == x && spec_in_runs(cols, (k - 1) as nat, rect_lo(xb[p], 0) as int);
                lemma_in_runs_grow(cols, k, rect_lo(xb[p], 0) as int);
                assert(xi[p] == x);
            }
        }
    }
}

/// The ids below `n` that `s` holds.
spec fn spec_taken(s: Seq<usize>, n: nat) -> Set<usize> {
    Set::new(|x: usize| x < n && s.contains(x))
}

proof fn lemma_missing_props(s: Seq<usize>, n: nat)
    requires
        n <= usize::MAX,
    ensures
        spec_missing(s, n).no_duplicates(),
        forall|x: usize| #[trigger] spec_missing(s, n).contains(x) <==> (x < n && !s.contains(x)),
        spec_taken(s, n).finite(),
        spec_taken(s, n).len() + spec_missing(s, n).len() == n,
    decreases n,
{
    if n == 0 {
        assert(spec_taken(s, n) =~= Set::empty());
    } else {
        let m = (n - 1) as nat;
        let l = m as usize;
        lemma_missing_props(s, m);
        let prev = spec_missing(s, m);
        let cur = spec_missing(s, n);
        if s.contains(l) {
            assert(cur == prev);
            assert(spec_taken(s, n) =~= spec_taken(s, m).insert(l));
            assert(!spec_taken(s, m).contains(l));
        } else {
            assert(cur == prev.push(l));
            assert(spec_taken(s, n) =~= spec_taken(s, m));
            assert forall|x: usize| #[trigger] cur.contains(x) <==> (x < n && !s.contains(x)) by {
                if cur.contains(x) && x != l {
                    let t = choose|t: int| 0 <= t < cur.len() && cur[t] == x;
                    assert(prev[t] == x);
                    assert(prev.contains(x));
                }
                if x < m && !s.contains(x) {
                    assert(prev.contains(x));
                    let t = choose|t: int| 0 <= t < prev.len() && prev[t] == x;
                    assert(cur[t] == x);
                }
                if x == l {
                    assert(cur[prev.len() as int] == l);
                    assert(cur.contains(x));
                }
            }
            assert forall|i: int, j: int| 0 <= i < cur.len() && 0 <= j < cur.len() && i != j implies #[trigger] cur[i]
                != #[trigger] cur[j] by {
                if i < prev.len() && j < prev.len() {
                    assert(cur[i] == prev[i] && cur[j] == prev[j]);
                } else if i < prev.len() {
                    assert(prev.contains(cur[i]));
                } else if j < prev.len() {
                    assert(prev.contains(cur[j]));
                }
            }
        }
    }
}

/// The XY-Cut order lists every box exactly once: it is a permutation of
/// `0..boxes.len()`.
pub proof fn lemma_xy_cut_order_permutation(boxes: Seq<BBox>, min_gap: usize)
    requires
        boxes.len() <= u32::MAX,
    ensures
        spec_is_permutation(spec_xy_cut_order(boxes, min_gap), boxes.len()),
{
    let n = boxes.len();
    let out = spec_xy_cut_order(boxes, min_gap);
    lemma_range_no_duplicates(n);
    if n >= 2 {
        let ids = spec_range(n);
        let rects = spec_rects(boxes);
        lemma_rec_distinct(rects, ids, min_gap);
        let res = spec_xy_rec(rects, ids, min_gap).0;
        assert forall|x: usize| #[trigger] res.contains(x) implies x < n by {
            assert(ids.contains(x));
        }
        lemma_missing_props(res, n);
        let miss = spec_missing(res, n);
        assert(spec_taken(res, n) =~= res.to_set());
        res.unique_seq_to_set();
        assert(res.len() + miss.len() == n);
        if res.len() < n {
            assert forall|x: usize| #[trigger] res.contains(x) implies !miss.contains(x) by {}
            lemma_concat_distinct(res, miss);
            assert forall|k: int| 0 <= k < out.len() implies #[trigger] out[k] < n by {
                assert((res + miss).contains(out[k]));
            }
        } else {
            assert forall|k: int| 0 <= k < out.len() implies #[trigger] out[k] < n by {
                assert(res.contains(out[k]));
            }
        }
    }
}

// ── The recursion ends when columns are separated by a gap ─────────

/// `v` starts a run: it is `idx[i]`, and the position before it in `idx`
/// (if any) lies more than `gap` below.
spec fn spec_starts_run(idx: Seq<usize>, gap: usize, i: int, v: usize) -> bool {
    &&& 0 <= i < idx.len()
    &&& idx[i] == v
    &&& (i == 0 || idx[i] - idx[i - 1] > gap)
}

/// `v` starts a run of `idx`.
spec fn spec_is_run_start(idx: Seq<usize>, gap: usize, v: usize) -> bool {
    exists|i: int| #[trigger] spec_starts_run(idx, gap, i, v)
}

proof fn lemma_run_starts(idx: Seq<usize>, gap: usize)
    ensures
        forall|j: int|
            0 <= j < spec_runs(idx, gap).len() ==> spec_is_run_start(
                idx,
                gap,
                #[trigger] spec_runs(idx, gap)[j].0,
            ),
    decreases idx.len(),
{
    if idx.len() > 0 {
        let pre = idx.drop_last();
        lemma_run_starts(pre, gap);
        lemma_runs_nonempty(pre, gap);
        let g = spec_runs(pre, gap);
        let r = spec_runs(idx, gap);
        let l = idx.last();
        assert forall|j: int| 0 <= j < g.len() implies spec_is_run_start(idx, gap, #[trigger] g[j].0) by {
            assert(spec_is_run_start(pre, gap, g[j].0));
            let i = choose|i: int| #[trigger] spec_starts_run(pre, gap, i, g[j].0);
            assert(pre[i] == idx[i]);
            if i > 0 {
                assert(pre[i - 1] == idx[i - 1]);
            }
            assert(spec_starts_run(idx, gap, i, g[j].0));
        }
        if idx.len() == 1 || l - idx[idx.len() - 2] > gap {
            assert(r == g.push((l, (l + 1) as usize)));
            assert forall|j: int| 0 <= j < r.len() implies spec_is_run_start(idx, gap, #[trigger] r[j].0) by {
                if j < g.len() {
                    assert(r[j] == g[j]);
                } else {
                    assert(spec_starts_run(idx, gap, idx.len() - 1, l));
                }
            }
        } else {
            assert(r == g.update(g.len() - 1, (g.last().0, (l + 1) as usize)));
            assert forall|j: int| 0 <= j < r.len() implies spec_is_run_start(idx, gap, #[trigger] r[j].0) by {
                assert(r[j].0 == g[j].0);
            }
        }
    }
}

proof fn lemma_above_contains(hist: Seq<u32>, min_value: u32, len: nat)
    requires
        len <= hist.len(),
        len <= usize::MAX,
    ensures
        forall|p: usize|
            #[trigger] spec_above(hist, min_value, len).contains(p) <==> (p < len && hist[p as int]
                > min_value),
    decreases len,
{
    if len > 0 {
        let m = (len - 1) as nat;
        lemma_above_contains(hist, min_value, m);
        let r = spec_above(hist, min_value, m);
        let a = spec_above(hist, min_value, len);
        if hist[m as int] > min_value {
            assert(a == r.push(m as usize));
            assert forall|p: usize| #[trigger] a.contains(p) <==> (p < len && hist[p as int] > min_value) by {
                if a.contains(p) && p != m {
                    let t = choose|t: int| 0 <= t < a.len() && a[t] == p;
                    assert(r[t] == p);
                    assert(r.contains(p));
                }
                if p < m && hist[p as int] > min_value {
                    assert(r.contains(p));
                    let t = choose|t: int| 0 <= t < r.len() && r[t] == p;
                    assert(a[t] == p);
                }
                if p == m {
                    assert(a[r.len() as int] == p);
                }
            }
        } else {
            assert(a == r);
        }
    }
}

proof fn lemma_cover_witness(boxes: Seq<Rect>, axis: usize, p: int)
    requires
        spec_cover(boxes, axis, p) > 0,
    ensures
        exists|t: int|
            0 <= t < boxes.len() && rect_lo(#[trigger] boxes[t], axis) <= p < rect_hi(boxes[t], axis),
    decreases boxes.len(),
{
    let pre = boxes.drop_last();
    let t = boxes.len() - 1;
    if rect_lo(boxes[t], axis) <= p < rect_hi(boxes[t], axis) {
    } else {
        lemma_cover_witness(pre, axis, p);
        let u = choose|u: int|
            0 <= u < pre.len() && rect_lo(#[trigger] pre[u], axis) <= p < rect_hi(pre[u], axis);
        assert(pre[u] == boxes[u]);
    }
}

proof fn lemma_cover_positive(boxes: Seq<Rect>, axis: usize, p: int, t: int)
    requires
        0 <= t < boxes.len(),
        rect_lo(boxes[t], axis) <= p < rect_hi(boxes[t], axis),
    ensures
        spec_cover(boxes, axis, p) > 0,
    decreases boxes.len(),
{
    if t < boxes.len() - 1 {
        assert(boxes.drop_last()[t] == boxes[t]);
        lemma_cover_positive(boxes.drop_last(), axis, p, t);
    }
}

/// Some box starts exactly where a run of the projection starts.
proof fn lemma_run_start_box(boxes: Seq<Rect>, axis: usize, gap: usize, j: int)
    requires
        gap >= 1,
        boxes.len() <= u32::MAX,
        0 <= j < spec_split(spec_projection(boxes, axis), 0, gap).len(),
    ensures
        exists|t: int|
            0 <= t < boxes.len() && rect_lo(#[trigger] boxes[t], axis) == spec_split(
                spec_projection(boxes, axis),
                0,
                gap,
            )[j].0,
{
    let hist = spec_projection(boxes, axis);
    let idx = spec_above(hist, 0, hist.len());
    let runs = spec_split(hist, 0, gap);
    lemma_run_starts(idx, gap);
    lemma_above_contains(hist, 0, hist.len());
    lemma_above_props(hist, 0, hist.len());
    let p = runs[j].0;
    assert(spec_is_run_start(idx, gap, p));
    let i = choose|i: int| #[trigger] spec_starts_run(idx, gap, i, p);
    assert(idx.contains(p));
    lemma_cover_bound(boxes, axis, p as int);
    assert(spec_cover(boxes, axis, p as int) > 0);
    lemma_cover_witness(boxes, axis, p as int);
    let t = choose|t: int|
        0 <= t < boxes.len() && rect_lo(#[trigger] boxes[t], axis) <= p < rect_hi(boxes[t], axis);
    if rect_lo(boxes[t], axis) < p {
        let q = (p - 1) as usize;
        lemma_cover_positive(boxes, axis, q as int, t);
        lemma_cover_bound(boxes, axis, q as int);
        assert(hist[q as int] > 0);
        assert(idx.contains(q));
        let i2 = choose|i2: int| 0 <= i2 < idx.len() && idx[i2] == q;
        if i2 >= i {
            if i2 > i {
                assert(idx[i] < idx[i2]);
            }
        } else {
            assert(i > 0);
            if i2 < i - 1 {
                assert(idx[i2] < idx[i - 1]);
            }
        }
    }
}

/// Below `n`, as a set.
spec fn spec_below(n: nat) -> Set<usize> {
    Set::new(|x: usize| x < n)
}

proof fn lemma_below_len(n: nat)
    requires
        n <= usize::MAX,
    ensures
        spec_below(n).finite(),
        spec_below(n).len() == n,
    decreases n,
{
    if n == 0 {
        assert(spec_below(n) =~= Set::empty());
    } else {
        lemma_below_len((n - 1) as nat);
        assert(spec_below(n) =~= spec_below((n - 1) as nat).insert((n - 1) as usize));
    }
}

/// Distinct ids below `n` that miss one id below `n` are fewer than `n`.
proof fn lemma_distinct_below(s: Seq<usize>, n: nat, t: usize)
    requires
        n <= usize::MAX,
        s.no_duplicates(),
        forall|k: int| 0 <= k < s.len() ==> #[trigger] s[k] < n,
        t < n,
        !s.contains(t),
    ensures
        s.len() < n,
{
    lemma_below_len(n);
    s.unique_seq_to_set();
    let rest = spec_below(n).remove(t);
    assert forall|x: usize| #[trigger] s.to_set().contains(x) implies rest.contains(x) by {
        let k = choose|k: int| 0 <= k < s.len() && s[k] == x;
        assert(s[k] < n);
    }
    vstd::set_lib::lemma_len_subset(s.to_set(), rest);
}

/// With two or more columns, each column holds fewer boxes than its band.
proof fn lemma_col_smaller(xb: Seq<Rect>, gap: usize, k: int)
    requires
        gap >= 1,
        xb.len() <= u32::MAX,
        spec_split(spec_projection(xb, 0), 0, gap).len() >= 2,
        0 <= k < spec_split(spec_projection(xb, 0), 0, gap).len(),
    ensures
        spec_select(
            xb,
            0,
            spec_split(spec_projection(xb, 0), 0, gap)[k].0,
            spec_split(spec_projection(xb, 0), 0, gap)[k].1,
        ).len() < xb.len(),
{
    let hist = spec_projection(xb, 0);
    let cols = spec_split(hist, 0, gap);
    let other: int = if k == 0 { 1 } else { 0 };
    lemma_run_start_box(xb, 0, gap, other);
    let t = choose|t: int| 0 <= t < xb.len() && rect_lo(#[trigger] xb[t], 0) == cols[other].0;
    lemma_split_ordered(hist, 0, gap);
    lemma_above_props(hist, 0, hist.len());
    lemma_runs_ordered(spec_above(hist, 0, hist.len()), gap);
    assert(cols[other].0 < cols[other].1);
    if other < k {
        assert(cols[other].1 <= cols[k].0);
    } else {
        assert(cols[k].1 <= cols[other].0);
    }
    let csel = spec_select(xb, 0, cols[k].0, cols[k].1);
    lemma_select_props(xb, 0, cols[k].0, cols[k].1);
    assert(!csel.contains(t as usize)) by {
        if csel.contains(t as usize) {
            let m = choose|m: int| 0 <= m < csel.len() && csel[m] == t as usize;
            assert(cols[k].0 <= rect_lo(xb[csel[m] as int], 0) < cols[k].1);
        }
    }
    lemma_distinct_below(csel, xb.len(), t as usize);
}

proof fn lemma_rec_ends(boxes: Seq<Rect>, indices: Seq<usize>, gap: usize)
    requires
        gap >= 1,
        boxes.len() <= u32::MAX,
    ensures
        spec_xy_rec(boxes, indices, gap).1,
    decreases boxes.len(), 3nat, 0nat,
{
    if boxes.len() > 0 {
        let keys = spec_start_keys(boxes, 1);
        let yo = spec_sorted_range(keys);
        lemma_sorted_range_bound(keys);
        let yb = spec_gather(yo, boxes);
        let yi = spec_gather(yo, indices);
        let rows = spec_split(spec_projection(yb, 1), 0, gap);
        lemma_rows_ends(boxes.len(), yb, yi, rows, rows.len(), gap);
    }
}

proof fn lemma_rows_ends(
    n: nat,
    yb: Seq<Rect>,
    yi: Seq<usize>,
    rows: Seq<(usize, usize)>,
    k: nat,
    gap: usize,
)
    requires
        gap >= 1,
        yb.len() <= n,
        n <= u32::MAX,
    ensures
        spec_xy_rows(n, yb, yi, rows, k, gap).1,
    decreases n, 2nat, k,
{
    if k > 0 && k <= rows.len() {
        lemma_rows_ends(n, yb, yi, rows, (k - 1) as nat, gap);
        lemma_band_ends(n, yb, yi, rows[k - 1], gap);
    }
}

proof fn lemma_band_ends(n: nat, yb: Seq<Rect>, yi: Seq<usize>, row: (usize, usize), gap: usize)
    requires
        gap >= 1,
        yb.len() <= n,
        n <= u32::MAX,
    ensures
        spec_xy_band(n, yb, yi, row, gap).1,
    decreases n, 1nat, 0nat,
{
    let sel = spec_select(yb, 1, row.0, row.1);
    lemma_select_props(yb, 1, row.0, row.1);
    let bb = spec_gather(sel, yb);
    let bi = spec_gather(sel, yi);
    let keys = spec_start_keys(bb, 0);
    let xo = spec_sorted_range(keys);
    lemma_sorted_range_bound(keys);
    let xb = spec_gather(xo, bb);
    let xi = spec_gather(xo, bi);
    let cols = spec_split(spec_projection(xb, 0), 0, gap);
    if cols.len() >= 2 {
        lemma_cols_ends(n, xb, xi, cols.len(), gap);
    }
}

proof fn lemma_cols_ends(n: nat, xb: Seq<Rect>, xi: Seq<usize>, k: nat, gap: usize)
    requires
        gap >= 1,
        xb.len() <= n,
        n <= u32::MAX,
        spec_split(spec_projection(xb, 0), 0, gap).len() >= 2,
        k <= spec_split(spec_projection(xb, 0), 0, gap).len(),
    ensures
        spec_xy_cols(n, xb, xi, spec_split(spec_projection(xb, 0), 0, gap), k, gap).1,
    decreases n, 0nat, k,
{
    let cols = spec_split(spec_projection(xb, 0), 0, gap);
    if k > 0 {
        lemma_cols_ends(n, xb, xi, (k - 1) as nat, gap);
        let c = cols[k - 1];
        let csel = spec_select(xb, 0, c.0, c.1);
        lemma_col_smaller(xb, gap, k - 1);
        lemma_rec_ends(spec_gather(csel, xb), spec_gather(csel, xi), gap);
    }
}

/// With a gap of at least one pixel between bands and columns, the XY-Cut
/// recursion always comes to an end.
pub proof fn lemma_xy_cut_terminates(boxes: Seq<BBox>, min_gap: usize)
    requires
        boxes.len() <= u32::MAX,
        min_gap >= 1,
    ensures
        spec_xy_cut_terminates(boxes, min_gap),
{
    lemma_rec_ends(spec_rects(boxes), spec_range(boxes.len()), min_gap);
}

// ── Bands top to bottom, columns left to right ──────────────────────

/// Every box of `b` is the box `top[l[p]]` that its label names.
pub open spec fn spec_labels_match(b: Seq<Rect>, l: Seq<usize>, top: Seq<Rect>) -> bool {
    &&& b.len() == l.len()
    &&& forall|p: int| 0 <= p < b.len() ==> #[trigger] l[p] < top.len() && b[p] == top[l[p] as int]
}

/// `v` lies in the run `r`.
pub open spec fn spec_within(r: (usize, usize), v: u32) -> bool {
    r.0 <= v && v < r.1
}

proof fn lemma_gather_labels(sel: Seq<usize>, b: Seq<Rect>, l: Seq<usize>, top: Seq<Rect>)
    requires
        spec_labels_match(b, l, top),
        forall|k: int| 0 <= k < sel.len() ==> #[trigger] sel[k] < b.len(),
    ensures
        spec_labels_match(spec_gather(sel, b), spec_gather(sel, l), top),
{
    let gb = spec_gather(sel, b);
    let gl = spec_gather(sel, l);
    assert forall|p: int| 0 <= p < gb.len() implies #[trigger] gl[p] < top.len() && gb[p] == top[gl[p] as int] by {
        assert(sel[p] < b.len());
        assert(gb[p] == b[sel[p] as int]);
        assert(gl[p] == l[sel[p] as int]);
    }
}

proof fn lemma_run_unique(runs: Seq<(usize, usize)>, a: int, b: int, v: u32)
    requires
        forall|x: int, y: int| 0 <= x < y < runs.len() ==> #[trigger] runs[x].1 <= #[trigger] runs[y].0,
        0 <= a < runs.len(),
        0 <= b < runs.len(),
        spec_within(runs[a], v),
        spec_within(runs[b], v),
    ensures
        a == b,
{
    if a < b {
        assert(runs[a].1 <= runs[b].0);
    } else if b < a {
        assert(runs[b].1 <= runs[a].0);
    }
}

/// The labels output by one column come from boxes starting in it.
proof fn lemma_col_members(
    n: nat,
    xb: Seq<Rect>,
    xi: Seq<usize>,
    c: (usize, usize),
    gap: usize,
    top: Seq<Rect>,
)
    requires
        xb.len() <= n,
        n <= u32::MAX,
        xi.no_duplicates(),
        spec_labels_match(xb, xi, top),
        spec_select(xb, 0, c.0, c.1).len() < n,
    ensures
        ({
            let csel = spec_select(xb, 0, c.0, c.1);
            let b = spec_xy_rec(spec_gather(csel, xb), spec_gather(csel, xi), gap).0;
            &&& b.no_duplicates()
            &&& forall|x: usize| #[trigger] b.contains(x) ==> x < top.len() && spec_within(c, rect_lo(top[x as int], 0))
        }),
{
    let csel = spec_select(xb, 0, c.0, c.1);
    lemma_select_props(xb, 0, c.0, c.1);
    let cb = spec_gather(csel, xb);
    let ci = spec_gather(csel, xi);
    lemma_gather_distinct(csel, xi);
    lemma_rec_distinct(cb, ci, gap);
    let b = spec_xy_rec(cb, ci, gap).0;
    assert forall|x: usize| #[trigger] b.contains(x) implies x < top.len() && spec_within(c, rect_lo(top[x as int], 0)) by {
        assert(ci.contains(x));
        let j = choose|j: int| 0 <= j < ci.len() && ci[j] == x;
        let t = csel[j];
        assert(ci[j] == xi[t as int]);
        assert(xb[t as int] == top[xi[t as int] as int]);
    }
}

proof fn lemma_cols_order(
    n: nat,
    xb: Seq<Rect>,
    xi: Seq<usize>,
    cols: Seq<(usize, usize)>,
    k: nat,
    gap: usize,
    top: Seq<Rect>,
)
    requires
        xb.len() <= n,
        n <= u32::MAX,
        xi.no_duplicates(),
        spec_labels_match(xb, xi, top),
        forall|a: int, b: int| 0 <= a < b < cols.len() ==> #[trigger] cols[a].1 <= #[trigger] cols[b].0,
        k <= cols.len(),
    ensures
        ({
            let out = spec_xy_cols(n, xb, xi, cols, k, gap).0;
            &&& forall|x: usize| #[trigger] out.contains(x) ==> x < top.len() && spec_in_runs(cols, k, rect_lo(top[x as int], 0) as int)
            &&& forall|i: int, j: int, c1: int, c2: int|
                #![trigger out[i], out[j], cols[c1], cols[c2]]
                0 <= i < j < out.len() && 0 <= c1 < cols.len() && 0 <= c2 < cols.len()
                    && spec_within(cols[c1], rect_lo(top[out[i] as int], 0))
                    && spec_within(cols[c2], rect_lo(top[out[j] as int], 0)) ==> c1 <= c2
        }),
    decreases k,
{
    if k > 0 {
        lemma_cols_order(n, xb, xi, cols, (k - 1) as nat, gap, top);
        let a = spec_xy_cols(n, xb, xi, cols, (k - 1) as nat, gap).0;
        let out = spec_xy_cols(n, xb, xi, cols, k, gap).0;
        let c = cols[k - 1];
        let csel = spec_select(xb, 0, c.0, c.1);
        assert forall|x: usize| #[trigger] a.contains(x) implies x < top.len() && spec_in_runs(cols, k, rect_lo(top[x as int], 0) as int) by {
            lemma_in_runs_grow(cols, k, rect_lo(top[x as int], 0) as int);
        }
        if csel.len() < n {
            lemma_col_members(n, xb, xi, c, gap, top);
            let b = spec_xy_rec(spec_gather(csel, xb), spec_gather(csel, xi), gap).0;
            assert(out == a + b);
            assert forall|x: usize| #[trigger] out.contains(x) implies x < top.len() && spec_in_runs(cols, k, rect_lo(top[x as int], 0) as int) by {
                if a.contains(x) {
                } else {
                    let t = choose|t: int| 0 <= t < out.len() && out[t] == x;
                    assert(b[t - a.len()] == x);
                    assert(b.contains(x));
                    lemma_in_runs_grow(cols, k, rect_lo(top[x as int], 0) as int);
                }
            }
            assert forall|i: int, j: int, c1: int, c2: int|
                #![trigger out[i], out[j], cols[c1], cols[c2]]
                0 <= i < j < out.len() && 0 <= c1 < cols.len() && 0 <= c2 < cols.len()
                    && spec_within(cols[c1], rect_lo(top[out[i] as int], 0))
                    && spec_within(cols[c2], rect_lo(top[out[j] as int], 0)) implies c1 <= c2 by {
                if j < a.len() {
                    assert(out[i] == a[i] && out[j] == a[j]);
                } else if i < a.len() {
                    assert(out[i] == a[i]);
                    assert(a.contains(a[i]));
                    let vi = rect_lo(top[a[i] as int], 0);
                    let m = choose|m: int| 0 <= m < k - 1 && #[trigger] cols[m].0 <= vi < cols[m].1;
                    lemma_run_unique(cols, m, c1, vi);
                    assert(out[j] == b[j - a.len()]);
                    assert(b.contains(b[j - a.len()]));
                    lemma_run_unique(cols, k - 1, c2, rect_lo(top[out[j] as int], 0));
                } else {
                    assert(out[i] == b[i - a.len()]);
                    assert(b.contains(b[i - a.len()]));
                    assert(out[j] == b[j - a.len()]);
                    assert(b.contains(b[j - a.len()]));
                    lemma_run_unique(cols, k - 1, c1, rect_lo(top[out[i] as int], 0));
                    lemma_run_unique(cols, k - 1, c2, rect_lo(top[out[j] as int], 0));
                }
            }
        } else {
            assert(out == a);
        }
    }
}

/// The boxes of a call in order of their tops.
pub open spec fn spec_by_top(boxes: Seq<Rect>) -> Seq<Rect> {
    spec_gather(spec_sorted_range(spec_start_keys(boxes, 1)), boxes)
}

/// The horizontal bands of a call: runs of the vertical projection.
pub open spec fn spec_bands(boxes: Seq<Rect>, gap: usize) -> Seq<(usize, usize)> {
    spec_split(spec_projection(spec_by_top(boxes), 1), 0, gap)
}

/// The columns of band `row` among boxes `yb`: runs of the horizontal
/// projection of the boxes whose top lies in the band.
pub open spec fn spec_band_columns(yb: Seq<Rect>, row: (usize, usize), gap: usize) -> Seq<(usize, usize)> {
    let sel = spec_select(yb, 1, row.0, row.1);
    let bb = spec_gather(sel, yb);
    let xb = spec_gather(spec_sorted_range(spec_start_keys(bb, 0)), bb);
    spec_split(spec_projection(xb, 0), 0, gap)
}

proof fn lemma_band_order(n: nat, yb: Seq<Rect>, yi: Seq<usize>, row: (usize, usize), gap: usize, top: Seq<Rect>)
    requires
        yb.len() <= n,
        n <= u32::MAX,
        yi.no_duplicates(),
        spec_labels_match(yb, yi, top),
    ensures
        ({
            let out = spec_xy_band(n, yb, yi, row, gap).0;
            let cols = spec_band_columns(yb, row, gap);
            &&& forall|x: usize| #[trigger] out.contains(x) ==> x < top.len() && spec_within(row, rect_lo(top[x as int], 1))
            &&& forall|i: int, j: int, c1: int, c2: int|
                #![trigger out[i], out[j], cols[c1], cols[c2]]
                0 <= i < j < out.len() && 0 <= c1 < cols.len() && 0 <= c2 < cols.len()
                    && spec_within(cols[c1], rect_lo(top[out[i] as int], 0))
                    && spec_within(cols[c2], rect_lo(top[out[j] as int], 0)) ==> c1 <= c2
        }),
{
    let sel = spec_select(yb, 1, row.0, row.1);
    lemma_select_props(yb, 1, row.0, row.1);
    let bb = spec_gather(sel, yb);
    let bi = spec_gather(sel, yi);
    lemma_gather_distinct(sel, yi);
    lemma_gather_labels(sel, yb, yi, top);
    let keys = spec_start_keys(bb, 0);
    let xo = spec_sorted_range(keys);
    lemma_sorted_range_permutation(keys);
    let xb = spec_gather(xo, bb);
    let xi = spec_gather(xo, bi);
    lemma_gather_distinct(xo, bi);
    lemma_gather_labels(xo, bb, bi, top);
    let cols = spec_split(spec_projection(xb, 0), 0, gap);
    assert(cols == spec_band_columns(yb, row, gap));
    lemma_band_distinct(n, yb, yi, row, gap);
    let out = spec_xy_band(n, yb, yi, row, gap).0;
    assert forall|x: usize| #[trigger] out.contains(x) implies x < top.len() && spec_within(row, rect_lo(top[x as int], 1)) by {
        let q = choose|q: int| 0 <= q < yi.len() && #[trigger] yi[q] == x && row.0 <= rect_lo(yb[q], 1) < row.1;
        assert(yb[q] == top[yi[q] as int]);
    }
    if cols.len() >= 2 {
        lemma_split_ordered(spec_projection(xb, 0), 0, gap);
        lemma_cols_order(n, xb, xi, cols, cols.len(), gap, top);
        assert(out == spec_xy_cols(n, xb, xi, cols, cols.len(), gap).0);
    } else if cols.len() == 1 {
        assert(out == xi);
    } else {
        assert(out.len() == 0);
    }
}

proof fn lemma_rows_order(
    n: nat,
    yb: Seq<Rect>,
    yi: Seq<usize>,
    rows: Seq<(usize, usize)>,
    k: nat,
    gap: usize,
    top: Seq<Rect>,
)
    requires
        yb.len() <= n,
        n <= u32::MAX,
        yi.no_duplicates(),
        spec_labels_match(yb, yi, top),
        forall|a: int, b: int| 0 <= a < b < rows.len() ==> #[trigger] rows[a].1 <= #[trigger] rows[b].0,
        k <= rows.len(),
    ensures
        ({
            let out = spec_xy_rows(n, yb, yi, rows, k, gap).0;
            &&& forall|x: usize| #[trigger] out.contains(x) ==> x < top.len() && spec_in_runs(rows, k, rect_lo(top[x as int], 1) as int)
            &&& forall|i: int, j: int, m1: int, m2: int|
                #![trigger out[i], out[j], rows[m1], rows[m2]]
                0 <= i < j < out.len() && 0 <= m1 < rows.len() && 0 <= m2 < rows.len()
                    && spec_within(rows[m1], rect_lo(top[out[i] as int], 1))
                    && spec_within(rows[m2], rect_lo(top[out[j] as int], 1)) ==> m1 <= m2
            &&& forall|i: int, j: int, m: int, c1: int, c2: int|
                #![trigger out[i], out[j], rows[m], spec_band_columns(yb, rows[m], gap)[c1], spec_band_columns(yb, rows[m], gap)[c2]]
                0 <= i < j < out.len() && 0 <= m < rows.len()
                    && spec_within(rows[m], rect_lo(top[out[i] as int], 1))
                    && spec_within(rows[m], rect_lo(top[out[j] as int], 1))
                    && 0 <= c1 < spec_band_columns(yb, rows[m], gap).len()
                    && 0 <= c2 < spec_band_columns(yb, rows[m], gap).len()
                    && spec_within(spec_band_columns(yb, rows[m], gap)[c1], rect_lo(top[out[i] as int], 0))
                    && spec_within(spec_band_columns(yb, rows[m], gap)[c2], rect_lo(top[out[j] as int], 0))
                    ==> c1 <= c2
        }),
    decreases k,
{
    if k > 0 {
        lemma_rows_order(n, yb, yi, rows, (k - 1) as nat, gap, top);
        lemma_band_order(n, yb, yi, rows[k - 1], gap, top);
        let a = spec_xy_rows(n, yb, yi, rows, (k - 1) as nat, gap).0;
        let b = spec_xy_band(n, yb, yi, rows[k - 1], gap).0;
        let out = spec_xy_rows(n, yb, yi, rows, k, gap).0;
        let cb = spec_band_columns(yb, rows[k - 1], gap);
        assert(out == a + b);
        assert forall|x: usize| #[trigger] out.contains(x) implies x < top.len() && spec_in_runs(rows, k, rect_lo(top[x as int], 1) as int) by {
            let t = choose|t: int| 0 <= t < out.len() && out[t] == x;
            if t < a.len() {
                assert(a[t] == x);
                assert(a.contains(x));
            } else {
                assert(b[t - a.len()] == x);
                assert(b.contains(x));
            }
            lemma_in_runs_grow(rows, k, rect_lo(top[x as int], 1) as int);
        }
        assert forall|i: int, j: int, m1: int, m2: int|
            #![trigger out[i], out[j], rows[m1], rows[m2]]
            0 <= i < j < out.len() && 0 <= m1 < rows.len() && 0 <= m2 < rows.len()
                && spec_within(rows[m1], rect_lo(top[out[i] as int], 1))
                && spec_within(rows[m2], rect_lo(top[out[j] as int], 1)) implies m1 <= m2 by {
            if j < a.len() {
                assert(out[i] == a[i] && out[j] == a[j]);
            } else if i < a.len() {
                assert(out[i] == a[i]);
                assert(a.contains(a[i]));
                let vi = rect_lo(top[a[i] as int], 1);
                let m = choose|m: int| 0 <= m < k - 1 && #[trigger] rows[m].0 <= vi < rows[m].1;
                lemma_run_unique(rows, m, m1, vi);
                assert(out[j] == b[j - a.len()]);
                assert(b.contains(b[j - a.len()]));
                lemma_run_unique(rows, k - 1, m2, rect_lo(top[out[j] as int], 1));
            } else {
                assert(out[i] == b[i - a.len()]);
                assert(b.contains(b[i - a.len()]));
                assert(out[j] == b[j - a.len()]);
                assert(b.contains(b[j - a.len()]));
                lemma_run_unique(rows, k - 1, m1, rect_lo(top[out[i] as int], 1));
                lemma_run_unique(rows, k - 1, m2, rect_lo(top[out[j] as int], 1));
            }
        }
        assert forall|i: int, j: int, m: int, c1: int, c2: int|
            #![trigger out[i], out[j], rows[m], spec_band_columns(yb, rows[m], gap)[c1], spec_band_columns(yb, rows[m], gap)[c2]]
            0 <= i < j < out.len() && 0 <= m < rows.len()
                && spec_within(rows[m], rect_lo(top[out[i] as int], 1))
                && spec_within(rows[m], rect_lo(top[out[j] as int], 1))
                && 0 <= c1 < spec_band_columns(yb, rows[m], gap).len()
                && 0 <= c2 < spec_band_columns(yb, rows[m], gap).len()
                && spec_within(spec_band_columns(yb, rows[m], gap)[c1], rect_lo(top[out[i] as int], 0))
                && spec_within(spec_band_columns(yb, rows[m], gap)[c2], rect_lo(top[out[j] as int], 0))
                implies c1 <= c2 by {
            if j < a.len() {
                assert(out[i] == a[i] && out[j] == a[j]);
            } else if i < a.len() {
                assert(out[i] == a[i]);
                assert(a.contains(a[i]));
                let vi = rect_lo(top[a[i] as int], 1);
                let mm = choose|mm: int| 0 <= mm < k - 1 && #[trigger] rows[mm].0 <= vi < rows[mm].1;
                lemma_run_unique(rows, mm, m, vi);
                assert(out[j] == b[j - a.len()]);
                assert(b.contains(b[j - a.len()]));
                lemma_run_unique(rows, k - 1, m, rect_lo(top[out[j] as int], 1));
            } else {
                let bi = i - a.len();
                let bj = j - a.len();
                assert(out[i] == b[bi]);
                assert(b.contains(b[bi]));
                assert(out[j] == b[bj]);
                lemma_run_unique(rows, k - 1, m, rect_lo(top[out[i] as int], 1));
                assert(cb[c1] == spec_band_columns(yb, rows[m], gap)[c1]);
                assert(cb[c2] == spec_band_columns(yb, rows[m], gap)[c2]);
            }
        }
    }
}

/// XY-Cut reads band by band and, inside a band, column by column: the
/// order starts with the boxes that the cut placed, and of two boxes placed
/// one before the other, the first lies in the same band as the second or
/// in a band above it; when both lie in one band, the first lies in the
/// same column of that band or in a column to its left.
pub proof fn lemma_xy_cut_bands_then_columns(boxes: Seq<BBox>, min_gap: usize)
    requires
        2 <= boxes.len() <= u32::MAX,
    ensures
        ({
            let rects = spec_rects(boxes);
            let placed = spec_xy_rec(rects, spec_range(boxes.len()), min_gap).0;
            let bands = spec_bands(rects, min_gap);
            let yb = spec_by_top(rects);
            &&& spec_xy_cut_order(boxes, min_gap).subrange(0, placed.len() as int) == placed
            &&& forall|i: int, j: int, m1: int, m2: int|
                #![trigger placed[i], placed[j], bands[m1], bands[m2]]
                0 <= i < j < placed.len() && 0 <= m1 < bands.len() && 0 <= m2 < bands.len()
                    && spec_within(bands[m1], boxes[placed[i] as int].y)
                    && spec_within(bands[m2], boxes[placed[j] as int].y) ==> m1 <= m2
            &&& forall|i: int, j: int, m: int, c1: int, c2: int|
                #![trigger placed[i], placed[j], bands[m], spec_band_columns(yb, bands[m], min_gap)[c1], spec_band_columns(yb, bands[m], min_gap)[c2]]
                0 <= i < j < placed.len() && 0 <= m < bands.len()
                    && spec_within(bands[m], boxes[placed[i] as int].y)
                    && spec_within(bands[m], boxes[placed[j] as int].y)
                    && 0 <= c1 < spec_band_columns(yb, bands[m], min_gap).len()
                    && 0 <= c2 < spec_band_columns(yb, bands[m], min_gap).len()
                    && spec_within(spec_band_columns(yb, bands[m], min_gap)[c1], boxes[placed[i] as int].x)
                    && spec_within(spec_band_columns(yb, bands[m], min_gap)[c2], boxes[placed[j] as int].x)
                    ==> c1 <= c2
        }),
{
    let n = boxes.len();
    let rects = spec_rects(boxes);
    let ids = spec_range(n);
    let placed = spec_xy_rec(rects, ids, min_gap).0;
    let keys = spec_start_keys(rects, 1);
    let yo = spec_sorted_range(keys);
    lemma_sorted_range_permutation(keys);
    lemma_range_no_duplicates(n);
    let yb = spec_gather(yo, rects);
    let yi = spec_gather(yo, ids);
    lemma_gather_distinct(yo, ids);
    assert(spec_labels_match(rects, ids, rects));
    lemma_gather_labels(yo, rects, ids, rects);
    let hist = spec_projection(yb, 1);
    let rows = spec_split(hist, 0, min_gap);
    lemma_split_ordered(hist, 0, min_gap);
    assert(yb == spec_by_top(rects));
    assert(rows == spec_bands(rects, min_gap));
    lemma_rows_order(n, yb, yi, rows, rows.len(), min_gap, rects);
    assert(placed == spec_xy_rows(n, yb, yi, rows, rows.len(), min_gap).0);
    // The corner of a box is the corner of its rectangle.
    assert forall|x: int| 0 <= x < n implies #[trigger] rects[x].0 == boxes[x].x && rects[x].1 == boxes[x].y by {}
    assert forall|i: int, j: int, m1: int, m2: int|
        #![trigger placed[i], placed[j], rows[m1], rows[m2]]
        0 <= i < j < placed.len() && 0 <= m1 < rows.len() && 0 <= m2 < rows.len()
            && spec_within(rows[m1], boxes[placed[i] as int].y)
            && spec_within(rows[m2], boxes[placed[j] as int].y) implies m1 <= m2 by {
        assert(placed.contains(placed[i]));
        assert(placed.contains(placed[j]));
        assert(spec_within(rows[m1], rect_lo(rects[placed[i] as int], 1)));
        assert(spec_within(rows[m2], rect_lo(rects[placed[j] as int], 1)));
    }
    assert forall|i: int, j: int, m: int, c1: int, c2: int|
        #![trigger placed[i], placed[j], rows[m], spec_band_columns(yb, rows[m], min_gap)[c1], spec_band_columns(yb, rows[m], min_gap)[c2]]
        0 <= i < j < placed.len() && 0 <= m < rows.len()
            && spec_within(rows[m], boxes[placed[i] as int].y)
            && spec_within(rows[m], boxes[placed[j] as int].y)
            && 0 <= c1 < spec_band_columns(yb, rows[m], min_gap).len()
            && 0 <= c2 < spec_band_columns(yb, rows[m], min_gap).len()
            && spec_within(spec_band_columns(yb, rows[m], min_gap)[c1], boxes[placed[i] as int].x)
            && spec_within(spec_band_columns(yb, rows[m], min_gap)[c2], boxes[placed[j] as int].x)
            implies c1 <= c2 by {
        assert(placed.contains(placed[i]));
        assert(placed.contains(placed[j]));
        assert(spec_within(rows[m], rect_lo(rects[placed[i] as int], 1)));
        assert(spec_within(rows[m], rect_lo(rects[placed[j] as int], 1)));
        assert(spec_within(spec_band_columns(yb, rows[m], min_gap)[c1], rect_lo(rects[placed[i] as int], 0)));
        assert(spec_within(spec_band_columns(yb, rows[m], min_gap)[c2], rect_lo(rects[placed[j] as int], 0)));
    }
    let out = spec_xy_cut_order(boxes, min_gap);
    lemma_rec_distinct(rects, ids, min_gap);
    if placed.len() < n {
        assert(out.subrange(0, placed.len() as int) =~= placed);
    } else {
        assert(out.subrange(0, placed.len() as int) =~= placed);
    }
}

// ── Every box is read: the recursion permutes its labels ─────────────

/// Every box covers at least one pixel on each axis.
pub open spec fn spec_boxes_proper(b: Seq<Rect>) -> bool {
    forall|p: int| 0 <= p < b.len() ==> spec_proper(#[trigger] b[p])
}

/// `r` covers at least one pixel on each axis.
pub open spec fn spec_proper(r: Rect) -> bool {
    r.0 < r.2 && r.1 < r.3
}

proof fn lemma_runs_cover(idx: Seq<usize>, gap: usize)
    requires
        forall|j: int, k: int| 0 <= j < k < idx.len() ==> idx[j] < idx[k],
        forall|k: int| 0 <= k < idx.len() ==> #[trigger] idx[k] < usize::MAX,
    ensures
        forall|t: int|
            0 <= t < idx.len() ==> spec_in_runs(spec_runs(idx, gap), spec_runs(idx, gap).len(), #[trigger] idx[t] as int),
    decreases idx.len(),
{
    if idx.len() > 0 {
        let pre = idx.drop_last();
        assert forall|j: int, k: int| 0 <= j < k < pre.len() implies pre[j] < pre[k] by {
            assert(pre[j] == idx[j] && pre[k] == idx[k]);
        }
        assert forall|k: int| 0 <= k < pre.len() implies #[trigger] pre[k] < usize::MAX by {
            assert(pre[k] == idx[k]);
        }
        lemma_runs_cover(pre, gap);
        lemma_runs_ordered(pre, gap);
        let g = spec_runs(pre, gap);
        let r = spec_runs(idx, gap);
        let l = idx.last();
        if idx.len() == 1 || l - idx[idx.len() - 2] > gap {
            assert(r == g.push((l, (l + 1) as usize)));
            assert forall|t: int| 0 <= t < idx.len() implies spec_in_runs(r, r.len(), #[trigger] idx[t] as int) by {
                if t < pre.len() {
                    assert(pre[t] == idx[t]);
                    assert(spec_in_runs(g, g.len(), pre[t] as int));
                    let m = choose|m: int| 0 <= m < g.len() && #[trigger] g[m].0 <= pre[t] < g[m].1;
                    assert(r[m] == g[m]);
                } else {
                    assert(r[g.len() as int].0 <= idx[t] < r[g.len() as int].1);
                }
            }
        } else {
            assert(pre.len() > 0);
            assert(r == g.update(g.len() - 1, (g.last().0, (l + 1) as usize)));
            assert(g.last().1 == pre.last() + 1);
            assert(pre.last() == idx[idx.len() - 2]);
            assert(g.last().0 < g.last().1);
            let last = g.len() - 1;
            assert forall|t: int| 0 <= t < idx.len() implies spec_in_runs(r, r.len(), #[trigger] idx[t] as int) by {
                if t < pre.len() {
                    assert(pre[t] == idx[t]);
                    assert(spec_in_runs(g, g.len(), pre[t] as int));
                    let m = choose|m: int| 0 <= m < g.len() && #[trigger] g[m].0 <= pre[t] < g[m].1;
                    if m < last {
                        assert(r[m] == g[m]);
                    } else {
                        if t < idx.len() - 2 {
                            assert(idx[t] < idx[idx.len() - 2]);
                        }
                        assert(r[last].0 <= idx[t] < r[last].1);
                    }
                } else {
                    assert(r[last].0 <= idx[t] < r[last].1);
                }
            }
        }
    }
}

proof fn lemma_select_complete(boxes: Seq<Rect>, axis: usize, lo: usize, hi: usize, p: int)
    requires
        0 <= p < boxes.len() <= usize::MAX,
        lo <= rect_lo(boxes[p], axis) < hi,
    ensures
        spec_select(boxes, axis, lo, hi).contains(p as usize),
    decreases boxes.len(),
{
    let pre = boxes.drop_last();
    let r = spec_select(pre, axis, lo, hi);
    let sel = spec_select(boxes, axis, lo, hi);
    if p == boxes.len() - 1 {
        assert(sel == r.push(p as usize));
        assert(sel[r.len() as int] == p as usize);
    } else {
        assert(pre[p] == boxes[p]);
        lemma_select_complete(pre, axis, lo, hi, p);
        let z = choose|z: int| 0 <= z < r.len() && r[z] == p as usize;
        let s0 = rect_lo(boxes.last(), axis);
        if lo <= s0 && s0 < hi {
            assert(sel == r.push((boxes.len() - 1) as usize));
            assert(sel[z] == p as usize);
        } else {
            assert(sel == r);
        }
    }
}

/// The start of a proper box lies in a run of the projection.
proof fn lemma_box_in_run(boxes: Seq<Rect>, axis: usize, gap: usize, q: int)
    requires
        boxes.len() <= u32::MAX,
        0 <= q < boxes.len(),
        rect_lo(boxes[q], axis) < rect_hi(boxes[q], axis),
    ensures
        ({
            let runs = spec_split(spec_projection(boxes, axis), 0, gap);
            spec_in_runs(runs, runs.len(), rect_lo(boxes[q], axis) as int)
        }),
{
    let hist = spec_projection(boxes, axis);
    let idx = spec_above(hist, 0, hist.len());
    let t = rect_lo(boxes[q], axis);
    lemma_extent_bound(boxes, axis, q);
    lemma_cover_positive(boxes, axis, t as int, q);
    lemma_cover_bound(boxes, axis, t as int);
    assert(hist[t as int] > 0);
    lemma_above_contains(hist, 0, hist.len());
    lemma_above_props(hist, 0, hist.len());
    assert(idx.contains(t as usize));
    let k = choose|k: int| 0 <= k < idx.len() && idx[k] == t as usize;
    lemma_runs_cover(idx, gap);
    assert(spec_in_runs(spec_runs(idx, gap), spec_runs(idx, gap).len(), idx[k] as int));
}

proof fn lemma_gather_proper(sel: Seq<usize>, b: Seq<Rect>)
    requires
        spec_boxes_proper(b),
        forall|k: int| 0 <= k < sel.len() ==> #[trigger] sel[k] < b.len(),
    ensures
        spec_boxes_proper(spec_gather(sel, b)),
{
    let g = spec_gather(sel, b);
    assert forall|p: int| 0 <= p < g.len() implies spec_proper(#[trigger] g[p]) by {
        let i = sel[p] as int;
        assert(0 <= i < b.len());
        assert(spec_proper(b[i]));
        assert(g[p] == b[i]);
    }
}

proof fn lemma_rec_complete(boxes: Seq<Rect>, indices: Seq<usize>, gap: usize)
    requires
        gap >= 1,
        boxes.len() <= u32::MAX,
        boxes.len() == indices.len(),
        spec_boxes_proper(boxes),
    ensures
        forall|p: int| 0 <= p < boxes.len() ==> spec_xy_rec(boxes, indices, gap).0.contains(#[trigger] indices[p]),
    decreases boxes.len(), 3nat, 0nat,
{
    if boxes.len() > 0 {
        let n = boxes.len();
        let keys = spec_start_keys(boxes, 1);
        let yo = spec_sorted_range(keys);
        lemma_sorted_range_bound(keys);
        lemma_sort_contains(spec_range(n), keys);
        let yb = spec_gather(yo, boxes);
        let yi = spec_gather(yo, indices);
        lemma_gather_proper(yo, boxes);
        let rows = spec_split(spec_projection(yb, 1), 0, gap);
        lemma_rows_complete(n, yb, yi, rows, rows.len(), gap);
        let out = spec_xy_rec(boxes, indices, gap).0;
        assert forall|p: int| 0 <= p < boxes.len() implies out.contains(#[trigger] indices[p]) by {
            assert(spec_range(n)[p] == p as usize);
            assert(spec_range(n).contains(p as usize));
            assert(yo.contains(p as usize));
            let q = choose|q: int| 0 <= q < yo.len() && yo[q] == p as usize;
            assert(yb[q] == boxes[p] && yi[q] == indices[p]);
            assert(spec_proper(yb[q]));
            lemma_box_in_run(yb, 1, gap, q);
        }
    }
}

proof fn lemma_rows_complete(
    n: nat,
    yb: Seq<Rect>,
    yi: Seq<usize>,
    rows: Seq<(usize, usize)>,
    k: nat,
    gap: usize,
)
    requires
        gap >= 1,
        yb.len() == yi.len(),
        yb.len() <= n,
        n <= u32::MAX,
        spec_boxes_proper(yb),
        k <= rows.len(),
    ensures
        forall|q: int|
            0 <= q < yb.len() && spec_in_runs(rows, k, rect_lo(yb[q], 1) as int) ==> spec_xy_rows(
                n,
                yb,
                yi,
                rows,
                k,
                gap,
            ).0.contains(#[trigger] yi[q]),
    decreases n, 2nat, k,
{
    if k > 0 {
        lemma_rows_complete(n, yb, yi, rows, (k - 1) as nat, gap);
        lemma_band_complete(n, yb, yi, rows[k - 1], gap);
        let a = spec_xy_rows(n, yb, yi, rows, (k - 1) as nat, gap).0;
        let b = spec_xy_band(n, yb, yi, rows[k - 1], gap).0;
        let out = spec_xy_rows(n, yb, yi, rows, k, gap).0;
        assert(out == a + b);
        assert forall|q: int|
            0 <= q < yb.len() && spec_in_runs(rows, k, rect_lo(yb[q], 1) as int) implies out.contains(#[trigger] yi[q]) by {
            let v = rect_lo(yb[q], 1) as int;
            let m = choose|m: int| 0 <= m < k && #[trigger] rows[m].0 <= v < rows[m].1;
            if m < k - 1 {
                assert(spec_in_runs(rows, (k - 1) as nat, v));
                assert(a.contains(yi[q]));
                let t = choose|t: int| 0 <= t < a.len() && a[t] == yi[q];
                assert(out[t] == yi[q]);
            } else {
                assert(b.contains(yi[q]));
                let t = choose|t: int| 0 <= t < b.len() && b[t] == yi[q];
                assert(out[a.len() + t] == yi[q]);
            }
        }
    }
}

proof fn lemma_band_complete(n: nat, yb: Seq<Rect>, yi: Seq<usize>, row: (usize, usize), gap: usize)
    requires
        gap >= 1,
        yb.len() == yi.len(),
        yb.len() <= n,
        n <= u32::MAX,
        spec_boxes_proper(yb),
    ensures
        forall|q: int|
            0 <= q < yb.len() && row.0 <= rect_lo(yb[q], 1) < row.1 ==> spec_xy_band(n, yb, yi, row, gap).0.contains(
                #[trigger] yi[q],
            ),
    decreases n, 1nat, 0nat,
{
    let sel = spec_select(yb, 1, row.0, row.1);
    lemma_select_props(yb, 1, row.0, row.1);
    let bb = spec_gather(sel, yb);
    let bi = spec_gather(sel, yi);
    lemma_gather_proper(sel, yb);
    let keys = spec_start_keys(bb, 0);
    let xo = spec_sorted_range(keys);
    lemma_sorted_range_bound(keys);
    lemma_sort_contains(spec_range(bb.len()), keys);
    let xb = spec_gather(xo, bb);
    let xi = spec_gather(xo, bi);
    lemma_gather_proper(xo, bb);
    let cols = spec_split(spec_projection(xb, 0), 0, gap);
    let out = spec_xy_band(n, yb, yi, row, gap).0;
    if cols.len() >= 2 {
        lemma_cols_complete(n, xb, xi, cols.len(), gap);
    }
    assert forall|q: int|
        0 <= q < yb.len() && row.0 <= rect_lo(yb[q], 1) < row.1 implies out.contains(#[trigger] yi[q]) by {
        lemma_select_complete(yb, 1, row.0, row.1, q);
        let j = choose|j: int| 0 <= j < sel.len() && sel[j] == q as usize;
        assert(bb[j] == yb[q] && bi[j] == yi[q]);
        assert(spec_range(bb.len())[j] == j as usize);
        assert(spec_range(bb.len()).contains(j as usize));
        assert(xo.contains(j as usize));
        let r = choose|r: int| 0 <= r < xo.len() && xo[r] == j as usize;
        assert(xb[r] == yb[q] && xi[r] == yi[q]);
        assert(spec_proper(xb[r]));
        lemma_box_in_run(xb, 0, gap, r);
        if cols.len() == 1 {
            assert(out == xi);
            assert(out[r] == yi[q]);
        } else {
            assert(out == spec_xy_cols(n, xb, xi, cols, cols.len(), gap).0);
        }
    }
}

proof fn lemma_cols_complete(n: nat, xb: Seq<Rect>, xi: Seq<usize>, k: nat, gap: usize)
    requires
        gap >= 1,
        xb.len() == xi.len(),
        xb.len() <= n,
        n <= u32::MAX,
        spec_boxes_proper(xb),
        spec_split(spec_projection(xb, 0), 0, gap).len() >= 2,
        k <= spec_split(spec_projection(xb, 0), 0, gap).len(),
    ensures
        forall|r: int|
            0 <= r < xb.len() && spec_in_runs(
                spec_split(spec_projection(xb, 0), 0, gap),
                k,
                rect_lo(xb[r], 0) as int,
            ) ==> spec_xy_cols(n, xb, xi, spec_split(spec_projection(xb, 0), 0, gap), k, gap).0.contains(
                #[trigger] xi[r],
            ),
    decreases n, 0nat, k,
{
    let cols = spec_split(spec_projection(xb, 0), 0, gap);
    if k > 0 {
        lemma_cols_complete(n, xb, xi, (k - 1) as nat, gap);
        let c = cols[k - 1];
        let csel = spec_select(xb, 0, c.0, c.1);
        lemma_col_smaller(xb, gap, k - 1);
        lemma_select_props(xb, 0, c.0, c.1);
        let cb = spec_gather(csel, xb);
        let ci = spec_gather(csel, xi);
        lemma_gather_proper(csel, xb);
        lemma_rec_complete(cb, ci, gap);
        let a = spec_xy_cols(n, xb, xi, cols, (k - 1) as nat, gap).0;
        let b = spec_xy_rec(cb, ci, gap).0;
        let out = spec_xy_cols(n, xb, xi, cols, k, gap).0;
        assert(out == a + b);
        assert forall|r: int|
            0 <= r < xb.len() && spec_in_runs(cols, k, rect_lo(xb[r], 0) as int) implies out.contains(#[trigger] xi[r]) by {
            let v = rect_lo(xb[r], 0) as int;
            let m = choose|m: int| 0 <= m < k && #[trigger] cols[m].0 <= v < cols[m].1;
            if m < k - 1 {
                assert(spec_in_runs(cols, (k - 1) as nat, v));
                assert(a.contains(xi[r]));
                let t = choose|t: int| 0 <= t < a.len() && a[t] == xi[r];
                assert(out[t] == xi[r]);
            } else {
                lemma_select_complete(xb, 0, c.0, c.1, r);
                let j = choose|j: int| 0 <= j < csel.len() && csel[j] == r as usize;
                assert(ci[j] == xi[r]);
                assert(b.contains(ci[j]));
                let t = choose|t: int| 0 <= t < b.len() && b[t] == xi[r];
                assert(out[a.len() + t] == xi[r]);
            }
        }
    }
}

/// `a` lists exactly the items of `b`, each once, as many as `b` has.
pub open spec fn spec_same_items(a: Seq<usize>, b: Seq<usize>) -> bool {
    &&& a.no_duplicates()
    &&& a.len() == b.len()
    &&& forall|x: usize| #[trigger] a.contains(x) <==> b.contains(x)
}

/// With a gap of at least one pixel, one step of the recursion on boxes
/// that each cover a pixel reads every label it is given exactly once.
pub proof fn lemma_xy_rec_permutes(boxes: Seq<Rect>, indices: Seq<usize>, min_gap: usize)
    requires
        min_gap >= 1,
        boxes.len() <= u32::MAX,
        boxes.len() == indices.len(),
        indices.no_duplicates(),
        spec_boxes_proper(boxes),
    ensures
        spec_xy_rec(boxes, indices, min_gap).1,
        spec_same_items(spec_xy_rec(boxes, indices, min_gap).0, indices),
{
    let out = spec_xy_rec(boxes, indices, min_gap).0;
    lemma_rec_ends(boxes, indices, min_gap);
    lemma_rec_distinct(boxes, indices, min_gap);
    lemma_rec_complete(boxes, indices, min_gap);
    assert forall|x: usize| #[trigger] out.contains(x) <==> indices.contains(x) by {
        if indices.contains(x) {
            let p = choose|p: int| 0 <= p < indices.len() && indices[p] == x;
            assert(out.contains(indices[p]));
        }
    }
    assert(out.to_set() =~= indices.to_set());
    out.unique_seq_to_set();
    indices.unique_seq_to_set();
}

// ── No gap wide enough to cut ───────────────────────────────────────

proof fn lemma_extent_le(boxes: Seq<Rect>, axis: usize, bound: int)
    requires
        0 <= bound,
        forall|p: int| 0 <= p < boxes.len() ==> rect_hi(#[trigger] boxes[p], axis) <= bound,
    ensures
        spec_extent(boxes, axis) <= bound,
    decreases boxes.len(),
{
    if boxes.len() > 0 {
        let pre = boxes.drop_last();
        assert forall|p: int| 0 <= p < pre.len() implies rect_hi(#[trigger] pre[p], axis) <= bound by {
            assert(pre[p] == boxes[p]);
        }
        lemma_extent_le(pre, axis, bound);
        assert(rect_hi(boxes[boxes.len() - 1], axis) <= bound);
    }
}

proof fn lemma_runs_single(idx: Seq<usize>, gap: usize)
    requires
        forall|k: int| 0 <= k < idx.len() ==> #[trigger] idx[k] <= gap,
    ensures
        spec_runs(idx, gap).len() == if idx.len() == 0 { 0nat } else { 1nat },
    decreases idx.len(),
{
    if idx.len() > 0 {
        let pre = idx.drop_last();
        assert forall|k: int| 0 <= k < pre.len() implies #[trigger] pre[k] <= gap by {
            assert(pre[k] == idx[k]);
        }
        lemma_runs_single(pre, gap);
        assert(idx[idx.len() - 1] <= gap);
    }
}

proof fn lemma_select_all(boxes: Seq<Rect>, axis: usize, lo: usize, hi: usize)
    requires
        boxes.len() <= usize::MAX,
        forall|p: int| 0 <= p < boxes.len() ==> lo <= rect_lo(#[trigger] boxes[p], axis) < hi,
    ensures
        spec_select(boxes, axis, lo, hi) == spec_range(boxes.len()),
    decreases boxes.len(),
{
    if boxes.len() > 0 {
        let pre = boxes.drop_last();
        assert forall|p: int| 0 <= p < pre.len() implies lo <= rect_lo(#[trigger] pre[p], axis) < hi by {
            assert(pre[p] == boxes[p]);
        }
        lemma_select_all(pre, axis, lo, hi);
        assert(lo <= rect_lo(boxes[boxes.len() - 1], axis) < hi);
        assert(spec_range(pre.len()).push((boxes.len() - 1) as usize) =~= spec_range(boxes.len()));
    }
}

/// Boxes whose far edges (empty extents counting one pixel) all lie within
/// `min_gap` of the origin, on both axes.
pub open spec fn spec_within_gap(boxes: Seq<BBox>, min_gap: usize) -> bool {
    forall|i: int|
        0 <= i < boxes.len() ==> {
            &&& #[trigger] boxes[i].x + spec_at_least_one(boxes[i].width) <= min_gap
            &&& boxes[i].y + spec_at_least_one(boxes[i].height) <= min_gap
        }
}

/// Box `a` comes before box `b` by left edge, then top edge, then index.
pub open spec fn spec_xy_before(boxes: Seq<BBox>, a: usize, b: usize) -> bool {
    let p = boxes[a as int];
    let q = boxes[b as int];
    p.x < q.x || (p.x == q.x && (p.y < q.y || (p.y == q.y && a < b)))
}

/// The single run of a projection whose positions all lie within the gap.
proof fn lemma_one_run(boxes: Seq<Rect>, axis: usize, gap: usize)
    requires
        1 <= boxes.len() <= u32::MAX,
        spec_boxes_proper(boxes),
        forall|p: int| 0 <= p < boxes.len() ==> rect_hi(#[trigger] boxes[p], axis) <= gap,
    ensures
        ({
            let runs = spec_split(spec_projection(boxes, axis), 0, gap);
            &&& runs.len() == 1
            &&& forall|q: int| 0 <= q < boxes.len() ==> runs[0].0 <= rect_lo(#[trigger] boxes[q], axis) < runs[0].1
        }),
{
    let hist = spec_projection(boxes, axis);
    let idx = spec_above(hist, 0, hist.len());
    let runs = spec_split(hist, 0, gap);
    lemma_extent_le(boxes, axis, gap as int);
    lemma_above_props(hist, 0, hist.len());
    assert forall|k: int| 0 <= k < idx.len() implies #[trigger] idx[k] <= gap by {}
    lemma_runs_single(idx, gap);
    assert(spec_proper(boxes[0]));
    lemma_box_in_run(boxes, axis, gap, 0);
    assert forall|q: int| 0 <= q < boxes.len() implies runs[0].0 <= rect_lo(#[trigger] boxes[q], axis) < runs[0].1 by {
        assert(spec_proper(boxes[q]));
        lemma_box_in_run(boxes, axis, gap, q);
        let m = choose|m: int| 0 <= m < runs.len() && #[trigger] runs[m].0 <= rect_lo(boxes[q], axis) as int && (rect_lo(boxes[q], axis) as int) < runs[m].1;
    }
}

/// When no box reaches past `min_gap` on either axis, no band or column is
/// cut: the order is by left edge, then top edge, then index.
pub proof fn lemma_xy_cut_no_gap_order(boxes: Seq<BBox>, min_gap: usize)
    requires
        boxes.len() <= u32::MAX,
        spec_boxes_fit(boxes),
        spec_within_gap(boxes, min_gap),
    ensures
        spec_xy_cut_order(boxes, min_gap).len() == boxes.len(),
        forall|i: int, j: int|
            0 <= i < j < boxes.len() ==> spec_xy_before(
                boxes,
                #[trigger] spec_xy_cut_order(boxes, min_gap)[i],
                #[trigger] spec_xy_cut_order(boxes, min_gap)[j],
            ),
{
    let n = boxes.len();
    if n >= 2 {
        let rects = spec_rects(boxes);
        assert forall|p: int| 0 <= p < n implies spec_proper(#[trigger] rects[p]) && rect_hi(rects[p], 0) <= min_gap
            && rect_hi(rects[p], 1) <= min_gap && rects[p].0 == boxes[p].x && rects[p].1 == boxes[p].y by {
            assert(boxes[p].x + spec_at_least_one(boxes[p].width) <= min_gap);
        }
        let ids = spec_range(n);
        let ykeys = spec_start_keys(rects, 1);
        let yo = spec_sorted_range(ykeys);
        lemma_sorted_range_bound(ykeys);
        assert forall|i: int, j: int| 0 <= i < j < ids.len() implies ids[i] < ids[j] by {}
        lemma_sort_sorted(ids, ykeys);
        lemma_sort_stable(ids, ykeys);
        let yb = spec_gather(yo, rects);
        let yi = spec_gather(yo, ids);
        assert forall|k: int| 0 <= k < n implies #[trigger] yi[k] == yo[k] && yb[k] == rects[yo[k] as int] by {
            assert(yo[k] < n);
        }
        assert forall|p: int| 0 <= p < n implies spec_proper(#[trigger] yb[p]) && rect_hi(yb[p], 0) <= min_gap
            && rect_hi(yb[p], 1) <= min_gap by {
            assert(rects[yo[p] as int] == yb[p]);
        }
        lemma_one_run(yb, 1, min_gap);
        let rows = spec_split(spec_projection(yb, 1), 0, min_gap);
        let row = rows[0];
        lemma_select_all(yb, 1, row.0, row.1);
        let sel = spec_select(yb, 1, row.0, row.1);
        assert(spec_gather(sel, yb) =~= yb);
        assert(spec_gather(sel, yi) =~= yi);
        let xkeys = spec_start_keys(yb, 0);
        let xo = spec_sorted_range(xkeys);
        lemma_sorted_range_bound(xkeys);
        lemma_sort_sorted(ids, xkeys);
        lemma_sort_stable(ids, xkeys);
        let xb = spec_gather(xo, yb);
        let xi = spec_gather(xo, yi);
        assert forall|p: int| 0 <= p < n implies spec_proper(#[trigger] xb[p]) && rect_hi(xb[p], 0) <= min_gap by {
            assert(xo[p] < n);
            assert(yb[xo[p] as int] == xb[p]);
        }
        lemma_one_run(xb, 0, min_gap);
        let band = spec_xy_band(n, yb, yi, row, min_gap);
        assert(band.0 == xi);
        assert(spec_xy_rec(rects, ids, min_gap).0 == spec_xy_rows(n, yb, yi, rows, 1, min_gap).0);
        assert(spec_xy_rows(n, yb, yi, rows, 0, min_gap).0 =~= Seq::<usize>::empty());
        assert(spec_xy_rec(rects, ids, min_gap).0 =~= xi);
        let out = spec_xy_cut_order(boxes, min_gap);
        assert(out == xi);
        assert forall|i: int, j: int| 0 <= i < j < n implies spec_xy_before(boxes, #[trigger] out[i], #[trigger] out[j]) by {
            let a = xo[i];
            let b = xo[j];
            assert(a < n && b < n);
            assert(out[i] == yo[a as int] && out[j] == yo[b as int]);
            assert(yo[a as int] < n && yo[b as int] < n);
            assert(xkeys[a as int] == boxes[out[i] as int].x);
            assert(xkeys[b as int] == boxes[out[j] as int].x);
            assert(xkeys[xo[i] as int] <= xkeys[xo[j] as int]);
            if xkeys[a as int] == xkeys[b as int] {
                assert(xo[i] < xo[j]);
                assert(ykeys[yo[a as int] as int] == boxes[out[i] as int].y);
                assert(ykeys[yo[b as int] as int] == boxes[out[j] as int].y);
                assert(ykeys[yo[a as int] as int] <= ykeys[yo[b as int] as int]);
                if ykeys[yo[a as int] as int] == ykeys[yo[b as int] as int] {
                    assert(yo[a as int] < yo[b as int]);
                }
            }
        }
    }
}

} // verus!

//! Connected regions of a binary pixel map (4-neighbourhood), the core of
//! DB-style text detection post-processing.
//!
//! Pixels are indexed row-major: pixel `p` of a map `w` pixels wide lies in
//! column `p % w` and row `p / w`. A region is grown from a seed pixel
//! through neighbouring `fill` pixels that no earlier region has taken;
//! seeds are tried in index order.
use vstd::prelude::*;

verus! {

/// `q` is a 4-neighbour of `p` on a row-major map `w` wide holding `n` pixels.
pub open spec fn spec_adjacent(w: int, n: int, p: int, q: int) -> bool {
    ||| q == p - 1 && p % w != 0
    ||| q == p + 1 && p % w + 1 < w
    ||| q == p - w && p >= w
    ||| q == p + w && p + w < n
}

/// `q` can join a region: it is on the map, in `fill`, and not yet taken.
pub open spec fn spec_open(fill: Seq<bool>, taken: Seq<bool>, q: int) -> bool {
    0 <= q < fill.len() && fill[q] && !taken[q]
}

/// `path` steps between 4-neighbours, every pixel after the first being open.
pub open spec fn spec_walk(w: int, fill: Seq<bool>, taken: Seq<bool>, path: Seq<int>) -> bool {
    &&& path.len() >= 1
    &&& forall|k: int|
        #![trigger path[k]]
        1 <= k < path.len() ==> spec_adjacent(w, fill.len() as int, path[k - 1], path[k])
            && spec_open(fill, taken, path[k])
}

/// Pixel `t` is reachable from `s` through open pixels.
pub open spec fn spec_reaches(w: int, fill: Seq<bool>, taken: Seq<bool>, s: int, t: int) -> bool {
    exists|path: Seq<int>|
        #[trigger] spec_walk(w, fill, taken, path) && path[0] == s && path.last() == t
}

/// The region grown from `s`: every pixel reachable from it.
pub open spec fn spec_component(w: int, fill: Seq<bool>, taken: Seq<bool>, s: int) -> Set<int> {
    Set::new(|t: int| spec_reaches(w, fill, taken, s, t))
}

/// `s` starts a new region: it is a seed not taken by an earlier region.
pub open spec fn spec_starts_region(seed: Seq<bool>, taken: Seq<bool>, s: int) -> bool {
    seed[s] && !taken[s]
}

/// Pixels taken by the regions grown from the seeds before position `p`.
pub open spec fn spec_taken_before(w: int, seed: Seq<bool>, fill: Seq<bool>, p: nat) -> Seq<bool>
    decreases p,
{
    if p == 0 {
        Seq::new(fill.len(), |i: int| false)
    } else {
        let v = spec_taken_before(w, seed, fill, (p - 1) as nat);
        let s = p - 1;
        if spec_starts_region(seed, v, s) {
            Seq::new(fill.len(), |i: int| v[i] || spec_reaches(w, fill, v, s, i))
        } else {
            v
        }
    }
}

/// `v` is the smallest column (`axis == 0`) or row index of the pixels in `c`.
pub open spec fn spec_is_low(w: int, c: Set<int>, axis: int, v: int) -> bool {
    &&& exists|p: int| c.contains(p) && spec_coord(w, p, axis) == v
    &&& forall|p: int| c.contains(p) ==> v <= spec_coord(w, p, axis)
}

/// `v` is the largest column (`axis == 0`) or row index of the pixels in `c`.
pub open spec fn spec_is_high(w: int, c: Set<int>, axis: int, v: int) -> bool {
    &&& exists|p: int| c.contains(p) && spec_coord(w, p, axis) == v
    &&& forall|p: int| c.contains(p) ==> spec_coord(w, p, axis) <= v
}

/// Column (`axis == 0`) or row of pixel `p`.
pub open spec fn spec_coord(w: int, p: int, axis: int) -> int {
    if axis == 0 { p % w } else { p / w }
}

pub open spec fn spec_low(w: int, c: Set<int>, axis: int) -> int {
    choose|v: int| spec_is_low(w, c, axis, v)
}

pub open spec fn spec_high(w: int, c: Set<int>, axis: int) -> int {
    choose|v: int| spec_is_high(w, c, axis, v)
}

/// Area of the bounding box of `c`.
pub open spec fn spec_box_area(w: int, c: Set<int>) -> int {
    (spec_high(w, c, 0) - spec_low(w, c, 0) + 1) * (spec_high(w, c, 1) - spec_low(w, c, 1) + 1)
}

/// Seeds, in index order, whose regions have a bounding box of at least
/// `min_area` pixels, among the first `p` pixels.
pub open spec fn spec_region_starts(
    w: int,
    seed: Seq<bool>,
    fill: Seq<bool>,
    min_area: int,
    p: nat,
) -> Seq<int>
    decreases p,
{
    if p == 0 {
        seq![]
    } else {
        let r = spec_region_starts(w, seed, fill, min_area, (p - 1) as nat);
        let v = spec_taken_before(w, seed, fill, (p - 1) as nat);
        let s = p - 1;
        if spec_starts_region(seed, v, s) && spec_box_area(w, spec_component(w, fill, v, s))
            >= min_area {
            r.push(s)
        } else {
            r
        }
    }
}

/// A connected region: its bounding box and its pixels.
pub struct Region {
    pub x: usize,
    pub y: usize,
    pub width: usize,
    pub height: usize,
    /// The region's pixels, each once, in the order the region was grown.
    pub pixels: Vec<usize>,
}

/// `r` describes exactly the pixel set `c`.
pub open spec fn spec_region_matches(r: Region, w: int, c: Set<int>) -> bool {
    &&& r.pixels@.no_duplicates()
    &&& forall|k: int| 0 <= k < r.pixels@.len() ==> c.contains(#[trigger] r.pixels@[k] as int)
    &&& forall|t: int| c.contains(t) ==> exists|k: int| 0 <= k < r.pixels@.len() && #[trigger] r.pixels@[k] == t
    &&& r.x == spec_low(w, c, 0)
    &&& r.y == spec_low(w, c, 1)
    &&& r.width == spec_high(w, c, 0) - spec_low(w, c, 0) + 1
    &&& r.height == spec_high(w, c, 1) - spec_low(w, c, 1) + 1
}

/// Number of `false` entries.
pub open spec fn spec_count_false(v: Seq<bool>) -> nat
    decreases v.len(),
{
    if v.len() == 0 {
        0
    } else {
        spec_count_false(v.drop_last()) + if v.last() { 0nat } else { 1nat }
    }
}

proof fn lemma_count_false_set(v: Seq<bool>, i: int)
    requires
        0 <= i < v.len(),
        !v[i],
    ensures
        spec_count_false(v.update(i, true)) + 1 == spec_count_false(v),
    decreases v.len(),
{
    if i < v.len() - 1 {
        lemma_count_false_set(v.drop_last(), i);
        assert(v.update(i, true).drop_last() =~= v.drop_last().update(i, true));
    } else {
        assert(v.update(i, true).drop_last() =~= v.drop_last());
    }
}

proof fn lemma_reaches_self(w: int, fill: Seq<bool>, taken: Seq<bool>, s: int)
    ensures
        spec_reaches(w, fill, taken, s, s),
{
    let path = seq![s];
    assert(spec_walk(w, fill, taken, path));
}

proof fn lemma_reaches_step(w: int, fill: Seq<bool>, taken: Seq<bool>, s: int, x: int, q: int)
    requires
        spec_reaches(w, fill, taken, s, x),
        spec_adjacent(w, fill.len() as int, x, q),
        spec_open(fill, taken, q),
    ensures
        spec_reaches(w, fill, taken, s, q),
{
    let path = choose|path: Seq<int>|
        #[trigger] spec_walk(w, fill, taken, path) && path[0] == s && path.last() == x;
    let next = path.push(q);
    assert forall|k: int| 1 <= k < next.len() implies spec_adjacent(
        w,
        fill.len() as int,
        #[trigger] next[k - 1],
        next[k],
    ) && spec_open(fill, taken, next[k]) by {
        if k < path.len() {
            assert(next[k - 1] == path[k - 1]);
            assert(next[k] == path[k]);
        }
    }
    assert(spec_walk(w, fill, taken, next));
}

/// A reachable pixel is on the map.
proof fn lemma_reaches_in_range(w: int, fill: Seq<bool>, taken: Seq<bool>, s: int, t: int)
    requires
        spec_reaches(w, fill, taken, s, t),
        0 <= s < fill.len(),
    ensures
        0 <= t < fill.len(),
{
    let path = choose|path: Seq<int>|
        #[trigger] spec_walk(w, fill, taken, path) && path[0] == s && path.last() == t;
    if path.len() > 1 {
        assert(spec_open(fill, taken, path[path.len() - 1]));
    }
}

/// A set that holds `path[0]` and is closed under stepping to open
/// neighbours holds the whole walk.
proof fn lemma_walk_stays(w: int, fill: Seq<bool>, taken: Seq<bool>, f: Set<int>, path: Seq<int>)
    requires
        spec_walk(w, fill, taken, path),
        f.contains(path[0]),
        forall|x: int, q: int|
            f.contains(x) && #[trigger] spec_adjacent(w, fill.len() as int, x, q) && spec_open(
                fill,
                taken,
                q,
            ) ==> f.contains(q),
    ensures
        f.contains(path.last()),
    decreases path.len(),
{
    if path.len() > 1 {
        let pre = path.drop_last();
        assert forall|k: int| 1 <= k < pre.len() implies spec_adjacent(
            w,
            fill.len() as int,
            #[trigger] pre[k - 1],
            pre[k],
        ) && spec_open(fill, taken, pre[k]) by {
            assert(pre[k] == path[k]);
            assert(pre[k - 1] == path[k - 1]);
            assert(path[k] == path[k]);
        }
        lemma_walk_stays(w, fill, taken, f, pre);
        let l = path.len() - 1;
        assert(path[l] == path[l]);
        assert(pre.last() == path[l - 1]);
    }
}

proof fn lemma_low_is_choice(w: int, c: Set<int>, axis: int, v: int)
    requires
        spec_is_low(w, c, axis, v),
    ensures
        spec_low(w, c, axis) == v,
{
    let u = spec_low(w, c, axis);
    assert(spec_is_low(w, c, axis, u));
    let pu = choose|p: int| c.contains(p) && spec_coord(w, p, axis) == u;
    let pv = choose|p: int| c.contains(p) && spec_coord(w, p, axis) == v;
    assert(v <= spec_coord(w, pu, axis));
    assert(u <= spec_coord(w, pv, axis));
}

proof fn lemma_high_is_choice(w: int, c: Set<int>, axis: int, v: int)
    requires
        spec_is_high(w, c, axis, v),
    ensures
        spec_high(w, c, axis) == v,
{
    let u = spec_high(w, c, axis);
    assert(spec_is_high(w, c, axis, u));
    let pu = choose|p: int| c.contains(p) && spec_coord(w, p, axis) == u;
    let pv = choose|p: int| c.contains(p) && spec_coord(w, p, axis) == v;
    assert(spec_coord(w, pu, axis) <= v);
    assert(spec_coord(w, pv, axis) <= u);
}

/// Takes `q` for the current region when it is free and in `fill`.
fn visit(visited: &mut Vec<bool>, stack: &mut Vec<usize>, fill: &Vec<bool>, q: usize)
    requires
        q < old(visited).len(),
        old(visited).len() == fill.len(),
    ensures
        !old(visited)@[q as int] && fill@[q as int] ==> final(visited)@ == old(visited)@.update(
            q as int,
            true,
        ) && final(stack)@ == old(stack)@.push(q),
        !(!old(visited)@[q as int] && fill@[q as int]) ==> final(visited)@ == old(visited)@
            && final(stack)@ == old(stack)@,
{
    if !visited[q] && fill[q] {
        visited.set(q, true);
        stack.push(q);
    }
}

/// Bookkeeping of a region being grown from `start`: `visited` extends
/// `v0`; the newly taken pixels are reachable from `start` and are exactly
/// those already processed (`pixels`) or waiting on the `stack`.
spec fn spec_grow_state(
    w: int,
    fill: Seq<bool>,
    v0: Seq<bool>,
    start: int,
    visited: Seq<bool>,
    stack: Seq<usize>,
    pixels: Seq<usize>,
) -> bool {
    let n = fill.len() as int;
    &&& visited.len() == n
    &&& v0.len() == n
    &&& forall|q: int| 0 <= q < n && #[trigger] v0[q] ==> visited[q]
    &&& forall|q: int|
        0 <= q < n && #[trigger] visited[q] && !v0[q] ==> spec_reaches(w, fill, v0, start, q)
    &&& forall|q: usize|
        q < n ==> ((visited[q as int] && !v0[q as int]) <==> (#[trigger] pixels.contains(q)
            || stack.contains(q)))
    &&& pixels.no_duplicates()
    &&& stack.no_duplicates()
    &&& forall|k: int, j: int|
        0 <= k < pixels.len() && 0 <= j < stack.len() ==> #[trigger] pixels[k] != #[trigger] stack[j]
    &&& forall|k: int| 0 <= k < pixels.len() ==> #[trigger] pixels[k] < n
    &&& forall|j: int| 0 <= j < stack.len() ==> #[trigger] stack[j] < n
}

/// Every open neighbour of a processed pixel has been taken.
spec fn spec_grow_closed(w: int, fill: Seq<bool>, v0: Seq<bool>, visited: Seq<bool>, pixels: Seq<usize>) -> bool {
    forall|k: int, q: int|
        0 <= k < pixels.len() && #[trigger] spec_adjacent(w, fill.len() as int, pixels[k] as int, q)
            && spec_open(fill, v0, q) ==> visited[q]
}

proof fn lemma_visit_keeps(
    w: int,
    fill: Seq<bool>,
    v0: Seq<bool>,
    start: int,
    visited: Seq<bool>,
    stack: Seq<usize>,
    pixels: Seq<usize>,
    done: Seq<usize>,
    x: int,
    q: usize,
)
    requires
        spec_grow_state(w, fill, v0, start, visited, stack, pixels),
        spec_grow_closed(w, fill, v0, visited, done),
        q < fill.len(),
        !visited[q as int],
        fill[q as int],
        spec_reaches(w, fill, v0, start, x),
        spec_adjacent(w, fill.len() as int, x, q as int),
    ensures
        spec_grow_state(w, fill, v0, start, visited.update(q as int, true), stack.push(q), pixels),
        spec_grow_closed(w, fill, v0, visited.update(q as int, true), done),
{
    let n = fill.len() as int;
    let v2 = visited.update(q as int, true);
    let s2 = stack.push(q);
    assert(!v0[q as int]);
    lemma_reaches_step(w, fill, v0, start, x, q as int);
    assert(!pixels.contains(q) && !stack.contains(q));
    assert forall|r: usize| r < n implies ((v2[r as int] && !v0[r as int]) <==> (
    #[trigger] pixels.contains(r) || s2.contains(r))) by {
        if r == q {
            assert(s2[stack.len() as int] == q);
            assert(s2.contains(r));
        } else {
            assert(v2[r as int] == visited[r as int]);
            if stack.contains(r) {
                let j = choose|j: int| 0 <= j < stack.len() && stack[j] == r;
                assert(s2[j] == r);
                assert(s2.contains(r));
            }
            if s2.contains(r) {
                let j = choose|j: int| 0 <= j < s2.len() && s2[j] == r;
                assert(j < stack.len());
                assert(stack[j] == r);
                assert(stack.contains(r));
            }
            assert(r < fill.len());
            assert(r < n);
        }
    }
    assert forall|k: int, j: int|
        0 <= k < pixels.len() && 0 <= j < s2.len() implies #[trigger] pixels[k]
        != #[trigger] s2[j] by {
        if j == stack.len() {
            if pixels[k] == q {
                assert(pixels.contains(q));
            }
        } else {
            assert(s2[j] == stack[j]);
        }
    }
    assert forall|i: int, j: int| 0 <= i < s2.len() && 0 <= j < s2.len() && i != j implies s2[i]
        != s2[j] by {
        if i == stack.len() {
            assert(s2[j] == stack[j]);
        } else if j == stack.len() {
            assert(s2[i] == stack[i]);
        }
    }
}

proof fn lemma_pop_keeps(
    w: int,
    fill: Seq<bool>,
    v0: Seq<bool>,
    start: int,
    visited: Seq<bool>,
    stack: Seq<usize>,
    pixels: Seq<usize>,
)
    requires
        spec_grow_state(w, fill, v0, start, visited, stack, pixels),
        spec_grow_closed(w, fill, v0, visited, pixels),
        stack.len() > 0,
    ensures
        spec_grow_state(w, fill, v0, start, visited, stack.drop_last(), pixels.push(stack.last())),
        spec_grow_closed(w, fill, v0, visited, pixels),
{
    let n = fill.len() as int;
    let x = stack.last();
    let s2 = stack.drop_last();
    let p2 = pixels.push(x);
    assert forall|r: usize| r < n implies ((visited[r as int] && !v0[r as int]) <==> (
    #[trigger] p2.contains(r) || s2.contains(r))) by {
        if pixels.contains(r) {
            let k = choose|k: int| 0 <= k < pixels.len() && pixels[k] == r;
            assert(p2[k] == r);
        }
        if stack.contains(r) {
            let j = choose|j: int| 0 <= j < stack.len() && stack[j] == r;
            if j < s2.len() {
                assert(s2[j] == r);
            } else {
                assert(p2[pixels.len() as int] == r);
            }
        }
        if p2.contains(r) {
            let k = choose|k: int| 0 <= k < p2.len() && p2[k] == r;
            if k < pixels.len() {
                assert(pixels[k] == r);
            } else {
                assert(stack[stack.len() - 1] == r);
            }
        }
        if s2.contains(r) {
            let j = choose|j: int| 0 <= j < s2.len() && s2[j] == r;
            assert(stack[j] == r);
        }
    }
    assert forall|k: int, j: int|
        0 <= k < p2.len() && 0 <= j < s2.len() implies #[trigger] p2[k] != #[trigger] s2[j] by {
        assert(s2[j] == stack[j]);
        if k == pixels.len() {
            assert(stack[stack.len() - 1] != stack[j]);
        } else {
            assert(p2[k] == pixels[k]);
        }
    }
    assert forall|i: int, j: int| 0 <= i < p2.len() && 0 <= j < p2.len() && i != j implies p2[i]
        != p2[j] by {
        if i == pixels.len() {
            assert(p2[j] == pixels[j]);
            assert(pixels[j] != stack[stack.len() - 1]);
        } else if j == pixels.len() {
            assert(p2[i] == pixels[i]);
            assert(pixels[i] != stack[stack.len() - 1]);
        }
    }
    assert forall|i: int, j: int| 0 <= i < s2.len() && 0 <= j < s2.len() && i != j implies s2[i]
        != s2[j] by {
        assert(s2[i] == stack[i]);
        assert(s2[j] == stack[j]);
    }
    assert forall|k: int| 0 <= k < p2.len() implies #[trigger] p2[k] < n by {
        if k < pixels.len() {
            assert(p2[k] == pixels[k]);
        }
    }
    assert forall|j: int| 0 <= j < s2.len() implies #[trigger] s2[j] < n by {
        assert(s2[j] == stack[j]);
    }
}

/// Neighbour indices of a pixel stay on a `w` x `h` map.
proof fn lemma_grid_neighbours(p: int, w: int, h: int)
    requires
        0 <= p < w * h,
        w > 0,
    ensures
        p % w != 0 ==> p >= 1,
        p % w + 1 < w ==> p + 1 < w * h,
        0 <= p % w < w,
        0 <= p / w < h,
{
    assert(p == (p / w) * w + p % w) by (nonlinear_arith)
        requires
            w > 0,
    ;
    assert(0 <= p % w < w) by (nonlinear_arith)
        requires
            w > 0,
    ;
    assert(p / w >= 0) by (nonlinear_arith)
        requires
            w > 0,
            p >= 0,
    ;
    assert(p / w < h) by (nonlinear_arith)
        requires
            p < w * h,
            w > 0,
            p >= 0,
            p == (p / w) * w + p % w,
            p % w >= 0,
    ;
    if p % w + 1 < w {
        assert((p / w) * w + w <= w * h) by (nonlinear_arith)
            requires
                p / w < h,
                w > 0,
                p / w >= 0,
        ;
    }
}

/// Bounds of the columns and rows of `pixels`: `lo` is attained and no
/// pixel is below it; `hi` is attained and no pixel is above it.
spec fn spec_seq_bounds(w: int, pixels: Seq<usize>, axis: int, lo: int, hi: int) -> bool {
    &&& exists|k: int| 0 <= k < pixels.len() && spec_coord(w, #[trigger] pixels[k] as int, axis) == lo
    &&& exists|k: int| 0 <= k < pixels.len() && spec_coord(w, #[trigger] pixels[k] as int, axis) == hi
    &&& forall|k: int|
        0 <= k < pixels.len() ==> lo <= #[trigger] spec_coord(w, pixels[k] as int, axis) <= hi
}

proof fn lemma_seq_bounds_push(w: int, pixels: Seq<usize>, axis: int, lo: int, hi: int, x: usize, c: int)
    requires
        pixels.len() > 0 ==> spec_seq_bounds(w, pixels, axis, lo, hi),
        c == spec_coord(w, x as int, axis),
    ensures
        ({
            let lo2 = if pixels.len() == 0 || c < lo { c } else { lo };
            let hi2 = if pixels.len() == 0 || c > hi { c } else { hi };
            spec_seq_bounds(w, pixels.push(x), axis, lo2, hi2)
        }),
{
    let p2 = pixels.push(x);
    let lo2 = if pixels.len() == 0 || c < lo { c } else { lo };
    let hi2 = if pixels.len() == 0 || c > hi { c } else { hi };
    assert(p2[pixels.len() as int] == x);
    assert forall|k: int| 0 <= k < p2.len() implies lo2 <= #[trigger] spec_coord(w, p2[k] as int, axis) <= hi2 by {
        if k < pixels.len() {
            assert(p2[k] == pixels[k]);
        }
    }
    if pixels.len() > 0 {
        if !(c < lo) {
            let k = choose|k: int| 0 <= k < pixels.len() && spec_coord(w, #[trigger] pixels[k] as int, axis) == lo;
            assert(p2[k] == pixels[k]);
        }
        if !(c > hi) {
            let k = choose|k: int| 0 <= k < pixels.len() && spec_coord(w, #[trigger] pixels[k] as int, axis) == hi;
            assert(p2[k] == pixels[k]);
        }
    }
}

/// Takes the open neighbour `q` of the reachable pixel `x`.
fn visit_from(
    fill: &Vec<bool>,
    visited: &mut Vec<bool>,
    stack: &mut Vec<usize>,
    q: usize,
    Ghost(w): Ghost<int>,
    Ghost(v0): Ghost<Seq<bool>>,
    Ghost(start): Ghost<int>,
    Ghost(pixels): Ghost<Seq<usize>>,
    Ghost(done): Ghost<Seq<usize>>,
    Ghost(x): Ghost<int>,
)
    requires
        spec_grow_state(w, fill@, v0, start, old(visited)@, old(stack)@, pixels),
        spec_grow_closed(w, fill@, v0, old(visited)@, done),
        q < fill.len(),
        spec_reaches(w, fill@, v0, start, x),
        spec_adjacent(w, fill.len() as int, x, q as int),
    ensures
        spec_grow_state(w, fill@, v0, start, final(visited)@, final(stack)@, pixels),
        spec_grow_closed(w, fill@, v0, final(visited)@, done),
        fill@[q as int] ==> final(visited)@[q as int],
        final(visited)@.len() == old(visited)@.len(),
        forall|i: int| 0 <= i < old(visited)@.len() && #[trigger] old(visited)@[i] ==> final(visited)@[i],
        2 * spec_count_false(final(visited)@) + final(stack)@.len() <= 2 * spec_count_false(
            old(visited)@,
        ) + old(stack)@.len(),
{
    proof {
        if !old(visited)@[q as int] && fill@[q as int] {
            lemma_visit_keeps(w, fill@, v0, start, visited@, stack@, pixels, done, x, q);
            lemma_count_false_set(visited@, q as int);
        }
    }
    visit(visited, stack, fill, q);
}

/// Takes the open 4-neighbours of the pixel `idx` just processed.
fn visit_neighbours(
    fill: &Vec<bool>,
    visited: &mut Vec<bool>,
    stack: &mut Vec<usize>,
    w: usize,
    h: usize,
    idx: usize,
    Ghost(v0): Ghost<Seq<bool>>,
    Ghost(start): Ghost<int>,
    Ghost(pixels): Ghost<Seq<usize>>,
    Ghost(done): Ghost<Seq<usize>>,
)
    requires
        spec_grow_state(w as int, fill@, v0, start, old(visited)@, old(stack)@, pixels),
        spec_grow_closed(w as int, fill@, v0, old(visited)@, done),
        pixels == done.push(idx),
        idx < fill.len(),
        fill.len() == w * h,
        w > 0,
        spec_reaches(w as int, fill@, v0, start, idx as int),
    ensures
        spec_grow_state(w as int, fill@, v0, start, final(visited)@, final(stack)@, pixels),
        spec_grow_closed(w as int, fill@, v0, final(visited)@, pixels),
        forall|i: int| 0 <= i < old(visited)@.len() && #[trigger] old(visited)@[i] ==> final(visited)@[i],
        2 * spec_count_false(final(visited)@) + final(stack)@.len() <= 2 * spec_count_false(
            old(visited)@,
        ) + old(stack)@.len(),
{
    let ghost wi = w as int;
    let n = fill.len();
    proof {
        lemma_grid_neighbours(idx as int, w as int, h as int);
    }
    let px = idx % w;
    if px > 0 {
        visit_from(fill, visited, stack, idx - 1, Ghost(wi), Ghost(v0), Ghost(start), Ghost(pixels), Ghost(done), Ghost(idx as int));
    }
    let ghost v1 = visited@;
    if px + 1 < w {
        visit_from(fill, visited, stack, idx + 1, Ghost(wi), Ghost(v0), Ghost(start), Ghost(pixels), Ghost(done), Ghost(idx as int));
    }
    let ghost v2 = visited@;
    if idx >= w {
        visit_from(fill, visited, stack, idx - w, Ghost(wi), Ghost(v0), Ghost(start), Ghost(pixels), Ghost(done), Ghost(idx as int));
    }
    let ghost v3 = visited@;
    if n - idx > w {
        visit_from(fill, visited, stack, idx + w, Ghost(wi), Ghost(v0), Ghost(start), Ghost(pixels), Ghost(done), Ghost(idx as int));
    }
    proof {
        assert forall|k: int, q: int|
            0 <= k < pixels.len() && #[trigger] spec_adjacent(wi, n as int, pixels[k] as int, q)
                && spec_open(fill@, v0, q) implies visited@[q] by {
            if k < done.len() {
                assert(pixels[k] == done[k]);
                assert(spec_adjacent(wi, n as int, done[k] as int, q));
            } else {
                assert(pixels[k] == idx);
                if q == idx - 1 && idx % w != 0 {
                    assert(v1[q]);
                } else if q == idx + 1 && idx % w + 1 < w {
                    assert(v2[q]);
                } else if q == idx - w && idx >= w {
                    assert(v3[q]);
                }
            }
        }
    }
}

/// Grows the region of `start` through open `fill` pixels, taking them in
/// `visited`. Returns the region's pixels in processing order and the
/// smallest column, smallest row, largest column and largest row.
fn grow(fill: &Vec<bool>, visited: &mut Vec<bool>, w: usize, h: usize, start: usize) -> (res: (
    Vec<usize>,
    usize,
    usize,
    usize,
    usize,
))
    requires
        old(visited).len() == fill.len(),
        start < fill.len(),
        !old(visited)@[start as int],
        w > 0,
        fill.len() == w * h,
    ensures
        final(visited)@ =~= Seq::new(
            fill.len() as nat,
            |i: int| old(visited)@[i] || spec_reaches(w as int, fill@, old(visited)@, start as int, i),
        ),
        res.0@.no_duplicates(),
        forall|k: int|
            0 <= k < res.0@.len() ==> spec_reaches(
                w as int,
                fill@,
                old(visited)@,
                start as int,
                #[trigger] res.0@[k] as int,
            ),
        forall|t: int|
            spec_reaches(w as int, fill@, old(visited)@, start as int, t) ==> exists|k: int|
                0 <= k < res.0@.len() && #[trigger] res.0@[k] == t,
        spec_seq_bounds(w as int, res.0@, 0, res.1 as int, res.3 as int),
        spec_seq_bounds(w as int, res.0@, 1, res.2 as int, res.4 as int),
{
    let ghost v0 = visited@;
    let ghost wi = w as int;
    let n = fill.len();
    visited.set(start, true);
    let mut stack: Vec<usize> = Vec::new();
    stack.push(start);
    let mut pixels: Vec<usize> = Vec::new();
    let mut min_x: usize = usize::MAX;
    let mut min_y: usize = usize::MAX;
    let mut max_x: usize = 0;
    let mut max_y: usize = 0;
    proof {
        lemma_reaches_self(wi, fill@, v0, start as int);
        assert forall|r: usize| r < n implies ((visited@[r as int] && !v0[r as int]) <==> (
        #[trigger] pixels@.contains(r) || stack@.contains(r))) by {
            if r == start {
                assert(stack@[0] == r);
            }
        }
    }
    while stack.len() > 0
        invariant
            n == fill.len(),
            start < n,
            w > 0,
            n == w * h,
            wi == w,
            v0.len() == n,
            !v0[start as int],
            visited@[start as int],
            spec_grow_state(wi, fill@, v0, start as int, visited@, stack@, pixels@),
            spec_grow_closed(wi, fill@, v0, visited@, pixels@),
            pixels.len() > 0 ==> spec_seq_bounds(wi, pixels@, 0, min_x as int, max_x as int),
            pixels.len() > 0 ==> spec_seq_bounds(wi, pixels@, 1, min_y as int, max_y as int),
        decreases 2 * spec_count_false(visited@) + stack.len(),
    {
        let ghost vis_before = visited@;
        let ghost done = pixels@;
        let ghost count_before = 2 * spec_count_false(visited@) + stack.len();
        proof {
            lemma_pop_keeps(wi, fill@, v0, start as int, visited@, stack@, pixels@);
        }
        let idx = stack.pop().unwrap();
        let px = idx % w;
        let py = idx / w;
        proof {
            lemma_seq_bounds_push(wi, pixels@, 0, min_x as int, max_x as int, idx, px as int);
            lemma_seq_bounds_push(wi, pixels@, 1, min_y as int, max_y as int, idx, py as int);
        }
        if pixels.len() == 0 || px < min_x {
            min_x = px;
        }
        if pixels.len() == 0 || px > max_x {
            max_x = px;
        }
        if pixels.len() == 0 || py < min_y {
            min_y = py;
        }
        if pixels.len() == 0 || py > max_y {
            max_y = py;
        }
        pixels.push(idx);
        proof {
            assert(pixels@[pixels.len() - 1] == idx);
            assert(pixels@.contains(idx));
            assert(pixels@ == done.push(idx));
        }
        visit_neighbours(fill, visited, &mut stack, w, h, idx, Ghost(v0), Ghost(start as int), Ghost(pixels@), Ghost(done));
        proof {
            assert(2 * spec_count_false(visited@) + stack.len() < count_before);
        }
    }
    proof {
        let f = Set::new(|q: int| 0 <= q < n && visited@[q] && !v0[q]);
        assert forall|x: int, q: int|
            f.contains(x) && #[trigger] spec_adjacent(wi, n as int, x, q) && spec_open(fill@, v0, q)
            implies f.contains(q) by {
            assert(pixels@.contains(x as usize));
            let k = choose|k: int| 0 <= k < pixels@.len() && pixels@[k] == x as usize;
            assert(spec_adjacent(wi, n as int, pixels@[k] as int, q));
        }
        assert forall|t: int| spec_reaches(wi, fill@, v0, start as int, t) implies exists|k: int|
            0 <= k < pixels@.len() && #[trigger] pixels@[k] == t by {
            let path = choose|path: Seq<int>|
                #[trigger] spec_walk(wi, fill@, v0, path) && path[0] == start as int && path.last() == t;
            lemma_walk_stays(wi, fill@, v0, f, path);
            lemma_reaches_in_range(wi, fill@, v0, start as int, t);
            assert(pixels@.contains(t as usize));
            let k = choose|k: int| 0 <= k < pixels@.len() && pixels@[k] == t as usize;
            assert(pixels@[k] == t);
        }
        assert forall|k: int| 0 <= k < pixels@.len() implies spec_reaches(
            wi,
            fill@,
            v0,
            start as int,
            #[trigger] pixels@[k] as int,
        ) by {
            assert(pixels@.contains(pixels@[k]));
        }
        assert forall|i: int| 0 <= i < n implies visited@[i] == (v0[i] || spec_reaches(
            wi,
            fill@,
            v0,
            start as int,
            i,
        )) by {
            if visited@[i] && !v0[i] {
            } else if spec_reaches(wi, fill@, v0, start as int, i) {
                let k = choose|k: int| 0 <= k < pixels@.len() && #[trigger] pixels@[k] == i;
                assert(pixels@.contains(i as usize));
            }
        }
    }
    (pixels, min_x, min_y, max_x, max_y)
}

proof fn lemma_taken_len(w: int, seed: Seq<bool>, fill: Seq<bool>, p: nat)
    ensures
        spec_taken_before(w, seed, fill, p).len() == fill.len(),
    decreases p,
{
    if p > 0 {
        lemma_taken_len(w, seed, fill, (p - 1) as nat);
    }
}

proof fn lemma_bounds_of_set(w: int, pixels: Seq<usize>, c: Set<int>, axis: int, lo: int, hi: int)
    requires
        spec_seq_bounds(w, pixels, axis, lo, hi),
        forall|k: int| 0 <= k < pixels.len() ==> c.contains(#[trigger] pixels[k] as int),
        forall|t: int| c.contains(t) ==> exists|k: int| 0 <= k < pixels.len() && #[trigger] pixels[k] == t,
    ensures
        spec_low(w, c, axis) == lo,
        spec_high(w, c, axis) == hi,
{
    let kl = choose|k: int| 0 <= k < pixels.len() && spec_coord(w, #[trigger] pixels[k] as int, axis) == lo;
    let kh = choose|k: int| 0 <= k < pixels.len() && spec_coord(w, #[trigger] pixels[k] as int, axis) == hi;
    assert(c.contains(pixels[kl] as int));
    assert(c.contains(pixels[kh] as int));
    assert forall|p: int| c.contains(p) implies lo <= spec_coord(w, p, axis) <= hi by {
        let k = choose|k: int| 0 <= k < pixels.len() && #[trigger] pixels[k] == p;
        assert(lo <= spec_coord(w, pixels[k] as int, axis) <= hi);
    }
    assert(spec_is_low(w, c, axis, lo));
    assert(spec_is_high(w, c, axis, hi));
    lemma_low_is_choice(w, c, axis, lo);
    lemma_high_is_choice(w, c, axis, hi);
}

/// Connected regions of a `w` x `h` pixel map (row-major, 4-neighbourhood).
///
/// Pixels are tried as seeds in index order; a `seed` pixel that no earlier
/// region has taken grows a region through neighbouring `fill` pixels not
/// yet taken. A region is reported when its bounding box covers at least
/// `min_area` pixels; its pixels are taken either way.
pub fn connected_regions(
    seed: &Vec<bool>,
    fill: &Vec<bool>,
    w: usize,
    h: usize,
    min_area: usize,
) -> (regions: Vec<Region>)
    requires
        seed.len() == w * h,
        fill.len() == w * h,
    ensures
        regions.len() == spec_region_starts(
            w as int,
            seed@,
            fill@,
            min_area as int,
            (w * h) as nat,
        ).len(),
        forall|k: int|
            0 <= k < regions.len() ==> {
                let s = #[trigger] spec_region_starts(
                    w as int,
                    seed@,
                    fill@,
                    min_area as int,
                    (w * h) as nat,
                )[k];
                spec_region_matches(
                    regions@[k],
                    w as int,
                    spec_component(w as int, fill@, spec_taken_before(w as int, seed@, fill@, s as nat), s),
                )
            },
{
    let n = seed.len();
    let ghost wi = w as int;
    let mut visited: Vec<bool> = Vec::new();
    let mut i: usize = 0;
    while i < n
        invariant
            i <= n,
            visited@ =~= Seq::new(i as nat, |q: int| false),
        decreases n - i,
    {
        visited.push(false);
        i = i + 1;
    }
    let mut regions: Vec<Region> = Vec::new();
    let mut p: usize = 0;
    while p < n
        invariant
            p <= n,
            n == w * h,
            n == fill.len(),
            n == seed.len(),
            wi == w,
            visited@ == spec_taken_before(wi, seed@, fill@, p as nat),
            regions.len() == spec_region_starts(wi, seed@, fill@, min_area as int, p as nat).len(),
            forall|k: int|
                0 <= k < regions.len() ==> {
                    let s = #[trigger] spec_region_starts(wi, seed@, fill@, min_area as int, p as nat)[k];
                    spec_region_matches(
                        regions@[k],
                        wi,
                        spec_component(wi, fill@, spec_taken_before(wi, seed@, fill@, s as nat), s),
                    )
                },
        decreases n - p,
    {
        let ghost before = visited@;
        let ghost starts = spec_region_starts(wi, seed@, fill@, min_area as int, p as nat);
        proof {
            lemma_taken_len(wi, seed@, fill@, p as nat);
        }
        if !visited[p] && seed[p] {
            assert(w > 0);
            let (pixels, x0, y0, x1, y1) = grow(fill, &mut visited, w, h, p);
            let ghost c = spec_component(wi, fill@, before, p as int);
            proof {
                assert forall|k: int| 0 <= k < pixels@.len() implies c.contains(#[trigger] pixels@[k] as int) by {}
                assert forall|t: int| c.contains(t) implies exists|k: int|
                    0 <= k < pixels@.len() && #[trigger] pixels@[k] == t by {}
                lemma_bounds_of_set(wi, pixels@, c, 0, x0 as int, x1 as int);
                lemma_bounds_of_set(wi, pixels@, c, 1, y0 as int, y1 as int);
                let kx = choose|k: int| 0 <= k < pixels@.len() && spec_coord(wi, #[trigger] pixels@[k] as int, 0) == x1 as int;
                let ky = choose|k: int| 0 <= k < pixels@.len() && spec_coord(wi, #[trigger] pixels@[k] as int, 1) == y1 as int;
                lemma_reaches_in_range(wi, fill@, before, p as int, pixels@[kx] as int);
                lemma_reaches_in_range(wi, fill@, before, p as int, pixels@[ky] as int);
                lemma_grid_neighbours(pixels@[kx] as int, w as int, h as int);
                lemma_grid_neighbours(pixels@[ky] as int, w as int, h as int);
                assert(x0 <= x1);
                assert(y0 <= y1);
            }
            let bw = x1 - x0 + 1;
            let bh = y1 - y0 + 1;
            proof {
                assert(bw * bh <= w * h) by (nonlinear_arith)
                    requires
                        bw <= w,
                        bh <= h,
                        bw >= 1,
                        bh >= 1,
                ;
            }
            if bw * bh >= min_area {
                regions.push(Region { x: x0, y: y0, width: bw, height: bh, pixels });
                proof {
                    let s2 = spec_region_starts(wi, seed@, fill@, min_area as int, p as nat + 1);
                    assert(s2 == starts.push(p as int));
                    assert forall|k: int| 0 <= k < regions.len() implies {
                        let s = #[trigger] s2[k];
                        spec_region_matches(
                            regions@[k],
                            wi,
                            spec_component(wi, fill@, spec_taken_before(wi, seed@, fill@, s as nat), s),
                        )
                    } by {
                        if k < starts.len() {
                            assert(s2[k] == starts[k]);
                        } else {
                            assert(s2[k] == p);
                        }
                    }
                }
            }
        }
        p = p + 1;
    }
    regions
}

// ── Regions never share a pixel ────────────────────────────────────

proof fn lemma_taken_grows(w: int, seed: Seq<bool>, fill: Seq<bool>, p: nat, q: nat, i: int)
    requires
        p <= q,
        0 <= i < fill.len(),
        spec_taken_before(w, seed, fill, p)[i],
    ensures
        spec_taken_before(w, seed, fill, q)[i],
    decreases q,
{
    if p < q {
        lemma_taken_grows(w, seed, fill, p, (q - 1) as nat, i);
        lemma_taken_len(w, seed, fill, (q - 1) as nat);
    }
}

/// A pixel reached from `s` is `s` itself or was not taken.
proof fn lemma_reached_untaken(w: int, fill: Seq<bool>, taken: Seq<bool>, s: int, t: int)
    requires
        spec_reaches(w, fill, taken, s, t),
    ensures
        t == s || !taken[t],
{
    let path = choose|path: Seq<int>|
        #[trigger] spec_walk(w, fill, taken, path) && path[0] == s && path.last() == t;
    if path.len() > 1 {
        assert(spec_open(fill, taken, path[path.len() - 1]));
    }
}

proof fn lemma_region_starts_props(w: int, seed: Seq<bool>, fill: Seq<bool>, min_area: int, p: nat)
    requires
        p <= fill.len(),
    ensures
        forall|k: int|
            0 <= k < spec_region_starts(w, seed, fill, min_area, p).len() ==> {
                let s = #[trigger] spec_region_starts(w, seed, fill, min_area, p)[k];
                &&& 0 <= s < p
                &&& spec_starts_region(seed, spec_taken_before(w, seed, fill, s as nat), s)
            },
        forall|a: int, b: int|
            0 <= a < b < spec_region_starts(w, seed, fill, min_area, p).len() ==> #[trigger] spec_region_starts(
                w,
                seed,
                fill,
                min_area,
                p,
            )[a] < #[trigger] spec_region_starts(w, seed, fill, min_area, p)[b],
    decreases p,
{
    if p > 0 {
        let q = (p - 1) as nat;
        lemma_region_starts_props(w, seed, fill, min_area, q);
        let r = spec_region_starts(w, seed, fill, min_area, q);
        let cur = spec_region_starts(w, seed, fill, min_area, p);
        let v = spec_taken_before(w, seed, fill, q);
        if spec_starts_region(seed, v, q as int) && spec_box_area(w, spec_component(w, fill, v, q as int))
            >= min_area {
            assert(cur == r.push(q as int));
            assert forall|k: int| 0 <= k < cur.len() implies {
                let s = #[trigger] cur[k];
                &&& 0 <= s < p
                &&& spec_starts_region(seed, spec_taken_before(w, seed, fill, s as nat), s)
            } by {
                if k < r.len() {
                    assert(cur[k] == r[k]);
                }
            }
            assert forall|a: int, b: int| 0 <= a < b < cur.len() implies #[trigger] cur[a] < #[trigger] cur[b] by {
                assert(cur[a] == r[a]);
                if b < r.len() {
                    assert(cur[b] == r[b]);
                }
            }
        } else {
            assert(cur == r);
        }
    }
}

/// Distinct regions share no pixel: the component grown from an earlier
/// seed is taken before any later seed grows its own.
pub proof fn lemma_regions_disjoint(
    w: int,
    seed: Seq<bool>,
    fill: Seq<bool>,
    min_area: int,
    a: int,
    b: int,
)
    requires
        seed.len() == fill.len(),
        0 <= a < b < spec_region_starts(w, seed, fill, min_area, fill.len()).len(),
    ensures
        ({
            let starts = spec_region_starts(w, seed, fill, min_area, fill.len());
            let s1 = starts[a];
            let s2 = starts[b];
            let c1 = spec_component(w, fill, spec_taken_before(w, seed, fill, s1 as nat), s1);
            let c2 = spec_component(w, fill, spec_taken_before(w, seed, fill, s2 as nat), s2);
            forall|t: int| !(#[trigger] c1.contains(t) && c2.contains(t))
        }),
{
    let starts = spec_region_starts(w, seed, fill, min_area, fill.len());
    lemma_region_starts_props(w, seed, fill, min_area, fill.len());
    let s1 = starts[a];
    let s2 = starts[b];
    let v1 = spec_taken_before(w, seed, fill, s1 as nat);
    let v2 = spec_taken_before(w, seed, fill, s2 as nat);
    let c1 = spec_component(w, fill, v1, s1);
    let c2 = spec_component(w, fill, v2, s2);
    assert forall|t: int| !(#[trigger] c1.contains(t) && c2.contains(t)) by {
        if c1.contains(t) && c2.contains(t) {
            lemma_reaches_in_range(w, fill, v1, s1, t);
            lemma_taken_len(w, seed, fill, s1 as nat);
            lemma_taken_len(w, seed, fill, s2 as nat);
            assert(spec_taken_before(w, seed, fill, (s1 + 1) as nat)[t]);
            lemma_taken_grows(w, seed, fill, (s1 + 1) as nat, s2 as nat, t);
            lemma_reached_untaken(w, fill, v2, s2, t);
        }
    }
}

// ── Regions are the maximal components of the seeded pixels ──────────

/// Nothing taken: the map before any region is grown.
pub open spec fn spec_none_taken(n: nat) -> Seq<bool> {
    Seq::new(n, |i: int| false)
}

/// The maximal 4-connected component of `fill` pixels around `s`.
pub open spec fn spec_full_component(w: int, fill: Seq<bool>, s: int) -> Set<int> {
    spec_component(w, fill, spec_none_taken(fill.len()), s)
}

proof fn lemma_mod_succ(p: int, w: int)
    requires
        w > 0,
        p >= 0,
        p % w + 1 < w,
    ensures
        (p + 1) % w == p % w + 1,
{
    vstd::arithmetic::div_mod::lemma_fundamental_div_mod(p, w);
    let q = p / w;
    let r = p % w;
    assert(p + 1 == q * w + (r + 1)) by (nonlinear_arith)
        requires
            p == w * q + r,
    ;
    vstd::arithmetic::div_mod::lemma_fundamental_div_mod_converse(p + 1, w, q, r + 1);
}

proof fn lemma_mod_pred(p: int, w: int)
    requires
        w > 0,
        p >= 1,
        p % w != 0,
    ensures
        (p - 1) % w == p % w - 1,
{
    vstd::arithmetic::div_mod::lemma_fundamental_div_mod(p, w);
    let q = p / w;
    let r = p % w;
    assert(p - 1 == q * w + (r - 1)) by (nonlinear_arith)
        requires
            p == w * q + r,
    ;
    vstd::arithmetic::div_mod::lemma_fundamental_div_mod_converse(p - 1, w, q, r - 1);
}

/// Adjacency is symmetric on the map.
proof fn lemma_adjacent_symmetric(w: int, n: int, p: int, q: int)
    requires
        w > 0,
        0 <= p < n,
        0 <= q < n,
        spec_adjacent(w, n, p, q),
    ensures
        spec_adjacent(w, n, q, p),
{
    if q == p - 1 && p % w != 0 {
        lemma_mod_pred(p, w);
    } else if q == p + 1 && p % w + 1 < w {
        lemma_mod_succ(p, w);
    }
}

/// With nothing taken, reachability from a `fill` pixel runs both ways.
proof fn lemma_reaches_back(w: int, fill: Seq<bool>, s: int, t: int)
    requires
        w > 0,
        0 <= s < fill.len(),
        fill[s],
        spec_reaches(w, fill, spec_none_taken(fill.len()), s, t),
    ensures
        spec_reaches(w, fill, spec_none_taken(fill.len()), t, s),
{
    let z = spec_none_taken(fill.len());
    let path = choose|path: Seq<int>| #[trigger] spec_walk(w, fill, z, path) && path[0] == s && path.last() == t;
    let l = path.len();
    let rev = Seq::new(l, |k: int| path[l - 1 - k]);
    assert forall|k: int| 0 <= k < l implies 0 <= #[trigger] path[k] < fill.len() && fill[path[k]] by {
        if k > 0 {
            assert(spec_open(fill, z, path[k]));
        }
    }
    assert forall|k: int| 1 <= k < rev.len() implies spec_adjacent(w, fill.len() as int, #[trigger] rev[k - 1], rev[k])
        && spec_open(fill, z, rev[k]) by {
        let a = l - k;
        assert(rev[k - 1] == path[a]);
        assert(rev[k] == path[a - 1]);
        assert(spec_adjacent(w, fill.len() as int, path[a - 1], path[a]));
        assert(0 <= path[a] < fill.len() && 0 <= path[a - 1] < fill.len() && fill[path[a - 1]]);
        lemma_adjacent_symmetric(w, fill.len() as int, path[a - 1], path[a]);
    }
    assert(spec_walk(w, fill, z, rev));
    assert(rev[0] == t && rev.last() == s);
}

/// Reachability chains.
proof fn lemma_reaches_trans(w: int, fill: Seq<bool>, v: Seq<bool>, s: int, t: int, u: int)
    requires
        spec_reaches(w, fill, v, s, t),
        spec_reaches(w, fill, v, t, u),
    ensures
        spec_reaches(w, fill, v, s, u),
{
    let p1 = choose|path: Seq<int>| #[trigger] spec_walk(w, fill, v, path) && path[0] == s && path.last() == t;
    let p2 = choose|path: Seq<int>| #[trigger] spec_walk(w, fill, v, path) && path[0] == t && path.last() == u;
    let c = p1 + p2.drop_first();
    assert forall|k: int| 1 <= k < c.len() implies spec_adjacent(w, fill.len() as int, #[trigger] c[k - 1], c[k])
        && spec_open(fill, v, c[k]) by {
        if k < p1.len() {
            assert(c[k] == p1[k] && c[k - 1] == p1[k - 1]);
        } else {
            let j = k - p1.len() + 1;
            assert(c[k] == p2[j]);
            if k == p1.len() {
                assert(c[k - 1] == p1.last());
                assert(p2[j - 1] == t);
            } else {
                assert(c[k - 1] == p2[j - 1]);
            }
        }
    }
    assert(spec_walk(w, fill, v, c));
    if p2.len() == 1 {
        assert(c.last() == p1.last());
    } else {
        assert(c.last() == p2.last());
    }
}

/// What is reachable past taken pixels is reachable when nothing is taken.
proof fn lemma_reaches_untaken(w: int, fill: Seq<bool>, v: Seq<bool>, s: int, t: int)
    requires
        v.len() == fill.len(),
        spec_reaches(w, fill, v, s, t),
    ensures
        spec_reaches(w, fill, spec_none_taken(fill.len()), s, t),
{
    let z = spec_none_taken(fill.len());
    let path = choose|path: Seq<int>| #[trigger] spec_walk(w, fill, v, path) && path[0] == s && path.last() == t;
    assert forall|k: int| 1 <= k < path.len() implies spec_adjacent(w, fill.len() as int, #[trigger] path[k - 1], path[k])
        && spec_open(fill, z, path[k]) by {
        assert(spec_open(fill, v, path[k]));
    }
    assert(spec_walk(w, fill, z, path));
}

/// Pixel `i` is in the maximal component of a `fill` pixel before `p`.
pub open spec fn spec_reached_before(w: int, fill: Seq<bool>, p: nat, i: int) -> bool {
    exists|s: int| 0 <= s < p && fill[s] && #[trigger] spec_reaches(w, fill, spec_none_taken(fill.len()), s, i)
}

proof fn lemma_prefix_reaches(w: int, fill: Seq<bool>, v: Seq<bool>, path: Seq<int>, k: int)
    requires
        spec_walk(w, fill, v, path),
        0 <= k < path.len(),
    ensures
        spec_reaches(w, fill, v, path[0], path[k]),
{
    let pre = path.subrange(0, k + 1);
    assert forall|j: int| 1 <= j < pre.len() implies spec_adjacent(w, fill.len() as int, #[trigger] pre[j - 1], pre[j])
        && spec_open(fill, v, pre[j]) by {
        assert(pre[j] == path[j] && pre[j - 1] == path[j - 1]);
    }
    assert(spec_walk(w, fill, v, pre));
    assert(pre[0] == path[0] && pre.last() == path[k]);
}

/// Growing from an untaken `fill` pixel reaches its whole maximal component:
/// no pixel of that component was taken by an earlier region.
proof fn lemma_grow_is_full(w: int, fill: Seq<bool>, p: nat, v: Seq<bool>)
    requires
        w > 0,
        p < fill.len(),
        v.len() == fill.len(),
        fill[p as int],
        !v[p as int],
        forall|i: int| 0 <= i < fill.len() ==> (v[i] <==> #[trigger] spec_reached_before(w, fill, p, i)),
    ensures
        forall|i: int| spec_reaches(w, fill, v, p as int, i) <==> #[trigger] spec_reaches(
            w,
            fill,
            spec_none_taken(fill.len()),
            p as int,
            i,
        ),
{
    let z = spec_none_taken(fill.len());
    assert forall|i: int| spec_reaches(w, fill, v, p as int, i) <==> #[trigger] spec_reaches(w, fill, z, p as int, i) by {
        if spec_reaches(w, fill, v, p as int, i) {
            lemma_reaches_untaken(w, fill, v, p as int, i);
        }
        if spec_reaches(w, fill, z, p as int, i) {
            let path = choose|path: Seq<int>| #[trigger] spec_walk(w, fill, z, path) && path[0] == p && path.last() == i;
            assert forall|k: int| 1 <= k < path.len() implies spec_adjacent(w, fill.len() as int, #[trigger] path[k - 1], path[k])
                && spec_open(fill, v, path[k]) by {
                assert(spec_open(fill, z, path[k]));
                let x = path[k];
                if v[x] {
                    assert(spec_reached_before(w, fill, p, x));
                    let s0 = choose|s0: int| 0 <= s0 < p && fill[s0] && #[trigger] spec_reaches(w, fill, z, s0, x);
                    lemma_prefix_reaches(w, fill, z, path, k);
                    lemma_reaches_back(w, fill, p as int, x);
                    lemma_reaches_trans(w, fill, z, s0, x, p as int);
                    assert(spec_reached_before(w, fill, p, p as int));
                }
            }
            assert(spec_walk(w, fill, v, path));
        }
    }
}

/// With every `fill` pixel a seed, the pixels taken before `p` are those of
/// the maximal components of the `fill` pixels before `p`.
proof fn lemma_taken_is_reached(w: int, fill: Seq<bool>, p: nat)
    requires
        w > 0,
        p <= fill.len(),
    ensures
        forall|i: int|
            0 <= i < fill.len() ==> (spec_taken_before(w, fill, fill, p)[i] <==> #[trigger] spec_reached_before(w, fill, p, i)),
    decreases p,
{
    let z = spec_none_taken(fill.len());
    if p > 0 {
        let q = (p - 1) as nat;
        lemma_taken_is_reached(w, fill, q);
        lemma_taken_len(w, fill, fill, q);
        let v = spec_taken_before(w, fill, fill, q);
        let nv = spec_taken_before(w, fill, fill, p);
        if spec_starts_region(fill, v, q as int) {
            lemma_grow_is_full(w, fill, q, v);
            assert forall|i: int| 0 <= i < fill.len() implies (nv[i] <==> #[trigger] spec_reached_before(w, fill, p, i)) by {
                assert(nv[i] == (v[i] || spec_reaches(w, fill, v, q as int, i)));
                if v[i] {
                    assert(spec_reached_before(w, fill, q, i));
                    let s0 = choose|s0: int| 0 <= s0 < q && fill[s0] && #[trigger] spec_reaches(w, fill, z, s0, i);
                    assert(spec_reaches(w, fill, z, s0, i));
                }
                if spec_reaches(w, fill, v, q as int, i) {
                    assert(spec_reaches(w, fill, z, q as int, i));
                }
                if spec_reaches(w, fill, z, q as int, i) {
                    assert(spec_reached_before(w, fill, p, i));
                }
                if spec_reached_before(w, fill, p, i) {
                    let s0 = choose|s0: int| 0 <= s0 < p && fill[s0] && #[trigger] spec_reaches(w, fill, z, s0, i);
                    if s0 < q {
                        assert(spec_reached_before(w, fill, q, i));
                    } else {
                        assert(spec_reaches(w, fill, z, q as int, i));
                    }
                }
            }
        } else {
            assert(nv == v);
            assert forall|i: int| 0 <= i < fill.len() implies (nv[i] <==> #[trigger] spec_reached_before(w, fill, p, i)) by {
                if v[i] {
                    assert(spec_reached_before(w, fill, q, i));
                    let s0 = choose|s0: int| 0 <= s0 < q && fill[s0] && #[trigger] spec_reaches(w, fill, z, s0, i);
                    assert(spec_reaches(w, fill, z, s0, i));
                }
                if spec_reached_before(w, fill, p, i) {
                    let s0 = choose|s0: int| 0 <= s0 < p && fill[s0] && #[trigger] spec_reaches(w, fill, z, s0, i);
                    if s0 < q {
                        assert(spec_reached_before(w, fill, q, i));
                    } else {
                        // `q` is a fill pixel already taken: its component came earlier.
                        assert(v[q as int]);
                        assert(spec_reached_before(w, fill, q, q as int));
                        let s1 = choose|s1: int| 0 <= s1 < q && fill[s1] && #[trigger] spec_reaches(w, fill, z, s1, q as int);
                        lemma_reaches_trans(w, fill, z, s1, q as int, i);
                        assert(spec_reached_before(w, fill, q, i));
                    }
                }
            }
        }
    } else {
        assert forall|i: int| 0 <= i < fill.len() implies (spec_taken_before(w, fill, fill, p)[i] <==> #[trigger] spec_reached_before(w, fill, p, i)) by {}
    }
}

proof fn lemma_taken_by(w: int, seed: Seq<bool>, fill: Seq<bool>, p: nat, i: int)
    requires
        0 <= i < fill.len(),
        spec_taken_before(w, seed, fill, p)[i],
    ensures
        exists|s: int|
            0 <= s < p && spec_starts_region(seed, spec_taken_before(w, seed, fill, s as nat), s)
                && #[trigger] spec_reaches(w, fill, spec_taken_before(w, seed, fill, s as nat), s, i),
    decreases p,
{
    if p > 0 {
        let q = (p - 1) as nat;
        let v = spec_taken_before(w, seed, fill, q);
        if v[i] {
            lemma_taken_by(w, seed, fill, q, i);
            let s0 = choose|s0: int|
                0 <= s0 < q && spec_starts_region(seed, spec_taken_before(w, seed, fill, s0 as nat), s0)
                    && #[trigger] spec_reaches(w, fill, spec_taken_before(w, seed, fill, s0 as nat), s0, i);
            assert(spec_reaches(w, fill, spec_taken_before(w, seed, fill, s0 as nat), s0, i));
        } else {
            assert(spec_reaches(w, fill, v, q as int, i));
        }
    }
}

proof fn lemma_starts_member(w: int, seed: Seq<bool>, fill: Seq<bool>, min_area: int, p: nat, s: int)
    requires
        0 <= s < p,
        spec_starts_region(seed, spec_taken_before(w, seed, fill, s as nat), s),
        spec_box_area(w, spec_component(w, fill, spec_taken_before(w, seed, fill, s as nat), s)) >= min_area,
    ensures
        spec_region_starts(w, seed, fill, min_area, p).contains(s),
    decreases p,
{
    let q = (p - 1) as nat;
    let r = spec_region_starts(w, seed, fill, min_area, q);
    let cur = spec_region_starts(w, seed, fill, min_area, p);
    if s == q {
        assert(cur == r.push(s));
        assert(cur[r.len() as int] == s);
    } else {
        lemma_starts_member(w, seed, fill, min_area, q, s);
        let k = choose|k: int| 0 <= k < r.len() && r[k] == s;
        let v = spec_taken_before(w, seed, fill, q);
        if spec_starts_region(seed, v, q as int) && spec_box_area(w, spec_component(w, fill, v, q as int)) >= min_area {
            assert(cur == r.push(q as int));
            assert(cur[k] == s);
        } else {
            assert(cur == r);
        }
    }
}

/// When every `fill` pixel is a seed, the regions are exactly the maximal
/// 4-connected components of the `fill` pixels whose bounding box covers at
/// least `min_area` pixels: each reported region is the whole component of
/// its seed, the seed is the component's first pixel in raster order, and
/// every large enough component is reported.
pub proof fn lemma_regions_are_full_components(w: int, fill: Seq<bool>, min_area: int)
    requires
        w > 0,
    ensures
        ({
            let starts = spec_region_starts(w, fill, fill, min_area, fill.len());
            &&& forall|k: int|
                0 <= k < starts.len() ==> fill[#[trigger] starts[k]] && spec_component(
                    w,
                    fill,
                    spec_taken_before(w, fill, fill, starts[k] as nat),
                    starts[k],
                ) == spec_full_component(w, fill, starts[k])
            &&& forall|k: int, t: int|
                0 <= k < starts.len() && #[trigger] spec_full_component(w, fill, starts[k]).contains(t) ==> starts[k] <= t
            &&& forall|q: int|
                0 <= q < fill.len() && fill[q] && spec_box_area(w, #[trigger] spec_full_component(w, fill, q))
                    >= min_area ==> exists|k: int|
                    0 <= k < starts.len() && spec_full_component(w, fill, #[trigger] starts[k]) == spec_full_component(
                        w,
                        fill,
                        q,
                    )
        }),
{
    let n = fill.len();
    let z = spec_none_taken(n);
    let starts = spec_region_starts(w, fill, fill, min_area, n);
    lemma_region_starts_props(w, fill, fill, min_area, n);
    assert forall|k: int| 0 <= k < starts.len() implies fill[#[trigger] starts[k]] && spec_component(
        w,
        fill,
        spec_taken_before(w, fill, fill, starts[k] as nat),
        starts[k],
    ) == spec_full_component(w, fill, starts[k]) by {
        let s0 = starts[k];
        lemma_taken_is_reached(w, fill, s0 as nat);
        lemma_taken_len(w, fill, fill, s0 as nat);
        lemma_grow_is_full(w, fill, s0 as nat, spec_taken_before(w, fill, fill, s0 as nat));
        assert(spec_component(w, fill, spec_taken_before(w, fill, fill, s0 as nat), s0) =~= spec_full_component(w, fill, s0));
    }
    assert forall|k: int, t: int|
        0 <= k < starts.len() && #[trigger] spec_full_component(w, fill, starts[k]).contains(t) implies starts[k] <= t by {
        let s0 = starts[k];
        if t < s0 {
            assert(spec_reaches(w, fill, z, s0, t));
            lemma_reaches_in_range(w, fill, z, s0, t);
            lemma_reached_untaken(w, fill, z, s0, t);
            let path = choose|path: Seq<int>| #[trigger] spec_walk(w, fill, z, path) && path[0] == s0 && path.last() == t;
            assert(path.len() > 1);
            assert(spec_open(fill, z, path[path.len() - 1]));
            assert(fill[t]);
            lemma_reaches_back(w, fill, s0, t);
            lemma_taken_is_reached(w, fill, s0 as nat);
            assert(spec_reached_before(w, fill, s0 as nat, s0));
            lemma_taken_len(w, fill, fill, s0 as nat);
        }
    }
    assert forall|q: int|
        0 <= q < n && fill[q] && spec_box_area(w, #[trigger] spec_full_component(w, fill, q)) >= min_area implies exists|k: int|
        0 <= k < starts.len() && spec_full_component(w, fill, #[trigger] starts[k]) == spec_full_component(w, fill, q) by {
        lemma_taken_is_reached(w, fill, (q + 1) as nat);
        lemma_reaches_self(w, fill, z, q);
        assert(spec_reached_before(w, fill, (q + 1) as nat, q));
        lemma_taken_by(w, fill, fill, (q + 1) as nat, q);
        let s0 = choose|s0: int|
            0 <= s0 < q + 1 && spec_starts_region(fill, spec_taken_before(w, fill, fill, s0 as nat), s0)
                && #[trigger] spec_reaches(w, fill, spec_taken_before(w, fill, fill, s0 as nat), s0, q);
        let v = spec_taken_before(w, fill, fill, s0 as nat);
        lemma_taken_is_reached(w, fill, s0 as nat);
        lemma_taken_len(w, fill, fill, s0 as nat);
        lemma_grow_is_full(w, fill, s0 as nat, v);
        assert(spec_reaches(w, fill, z, s0, q));
        assert forall|t: int| spec_full_component(w, fill, s0).contains(t) <==> spec_full_component(w, fill, q).contains(t) by {
            if spec_reaches(w, fill, z, q, t) {
                lemma_reaches_trans(w, fill, z, s0, q, t);
            }
            if spec_reaches(w, fill, z, s0, t) {
                lemma_reaches_back(w, fill, s0, q);
                lemma_reaches_trans(w, fill, z, q, s0, t);
            }
        }
        assert(spec_full_component(w, fill, s0) =~= spec_full_component(w, fill, q));
        assert(spec_component(w, fill, v, s0) =~= spec_full_component(w, fill, s0));
        lemma_starts_member(w, fill, fill, min_area, n, s0);
        let k = choose|k: int| 0 <= k < starts.len() && starts[k] == s0;
        assert(spec_full_component(w, fill, starts[k]) == spec_full_component(w, fill, q));
    }
}

} // verus!

//! Contours of the components of a binary mask: their boundary pixels, and
//! the removal of collinear points.
use vstd::prelude::*;

use crate::labels::{label_components, labels_cover_components, seeds_describe, LabelMap};
use crate::raster::GrayMask;

verus! {

/// Pixel coordinates `(x, y)` along the outline of a region.
#[derive(Debug, Clone)]
pub struct Contour {
    pub points: Vec<(i32, i32)>,
}

impl Contour {
    pub fn new() -> (r: Self)
        ensures
            r.points@.len() == 0,
    {
        Contour { points: Vec::new() }
    }

    pub fn len(&self) -> (r: usize)
        ensures
            r == self.points@.len(),
    {
        self.points.len()
    }

    pub fn is_empty(&self) -> (r: bool)
        ensures
            r <==> self.points@.len() == 0,
    {
        self.points.len() == 0
    }
}

/// The points of each contour.
pub open spec fn contour_points(cs: Seq<Contour>) -> Seq<Seq<(i32, i32)>> {
    cs.map_values(|c: Contour| c.points@)
}

/// `(x, y)` lies outside the map or carries another label than `t`.
pub open spec fn differs(lm: LabelMap, x: int, y: int, t: u32) -> bool {
    !lm.in_bounds(x, y) || lm.lab(x, y) != t
}

/// Some 4-neighbour of `(x, y)` lies outside the map or carries another
/// label than `t`.
pub open spec fn on_boundary(lm: LabelMap, x: int, y: int, t: u32) -> bool {
    ||| differs(lm, x, y - 1, t)
    ||| differs(lm, x + 1, y, t)
    ||| differs(lm, x, y + 1, t)
    ||| differs(lm, x - 1, y, t)
}

/// `(x, y)` is a pixel of label `t` on the boundary of its region.
pub open spec fn is_boundary_of(lm: LabelMap, x: int, y: int, t: u32) -> bool {
    lm.in_bounds(x, y) && lm.lab(x, y) == t && on_boundary(lm, x, y, t)
}

/// Boundary pixels of label `t` in row `y` with a column below `x`, left to
/// right.
pub open spec fn row_boundary(lm: LabelMap, t: u32, y: int, x: int) -> Seq<(i32, i32)>
    decreases x,
{
    if x <= 0 {
        Seq::empty()
    } else {
        let prev = row_boundary(lm, t, y, x - 1);
        if is_boundary_of(lm, x - 1, y, t) {
            prev.push(((x - 1) as i32, y as i32))
        } else {
            prev
        }
    }
}

/// Boundary pixels of label `t` in the rows above `y`, in raster order.
pub open spec fn rows_boundary(lm: LabelMap, t: u32, y: int) -> Seq<(i32, i32)>
    decreases y,
{
    if y <= 0 {
        Seq::empty()
    } else {
        rows_boundary(lm, t, y - 1) + row_boundary(lm, t, y - 1, lm.width as int)
    }
}

/// Every boundary pixel of label `t`, in raster order.
pub open spec fn boundary(lm: LabelMap, t: u32) -> Seq<(i32, i32)> {
    rows_boundary(lm, t, lm.height as int)
}

/// The boundaries of labels `1..=n` in label order, leaving out those with
/// fewer than three pixels.
pub open spec fn long_boundaries(lm: LabelMap, n: nat) -> Seq<Seq<(i32, i32)>>
    decreases n,
{
    if n == 0 {
        Seq::empty()
    } else {
        let prev = long_boundaries(lm, (n - 1) as nat);
        let b = boundary(lm, n as u32);
        if b.len() >= 3 {
            prev.push(b)
        } else {
            prev
        }
    }
}

/// `(nx, ny)` lies outside the map or carries another label than `t`.
fn differs_at(lm: &LabelMap, nx: i32, ny: i32, t: u32) -> (r: bool)
    requires
        lm.wf(),
    ensures
        r == differs(*lm, nx as int, ny as int, t),
{
    if nx < 0 || nx >= lm.width as i32 || ny < 0 || ny >= lm.height as i32 {
        true
    } else {
        lm.get(nx, ny) != t
    }
}

/// Whether the pixel `(x, y)` touches, through one of its four sides, the
/// edge of the map or a pixel without label `target_label`.
pub fn is_boundary_pixel_label(lm: &LabelMap, x: i32, y: i32, target_label: u32) -> (r: bool)
    requires
        lm.wf(),
        lm.in_bounds(x as int, y as int),
    ensures
        r == on_boundary(*lm, x as int, y as int, target_label),
{
    differs_at(lm, x, y - 1, target_label) || differs_at(lm, x + 1, y, target_label)
        || differs_at(lm, x, y + 1, target_label) || differs_at(lm, x - 1, y, target_label)
}

/// Whether the pixel `(x, y)` touches, through one of its four sides, the
/// edge of the map or a pixel with another label than its own.
pub fn is_boundary_pixel(lm: &LabelMap, x: i32, y: i32) -> (r: bool)
    requires
        lm.wf(),
        lm.in_bounds(x as int, y as int),
    ensures
        r == on_boundary(*lm, x as int, y as int, lm.lab(x as int, y as int)),
{
    let label = lm.get(x, y);
    is_boundary_pixel_label(lm, x, y, label)
}

/// The boundary pixels of label `target_label`, in raster order.
pub fn extract_boundary(lm: &LabelMap, target_label: u32) -> (r: Vec<(i32, i32)>)
    requires
        lm.wf(),
    ensures
        r@ == boundary(*lm, target_label),
{
    let mut out: Vec<(i32, i32)> = Vec::new();
    let width = lm.width as i32;
    let height = lm.height as i32;
    let mut y: i32 = 0;
    while y < height
        invariant
            lm.wf(),
            width == lm.width,
            height == lm.height,
            0 <= y <= height,
            out@ == rows_boundary(*lm, target_label, y as int),
        decreases height - y,
    {
        let mut x: i32 = 0;
        while x < width
            invariant
                lm.wf(),
                width == lm.width,
                height == lm.height,
                0 <= y < height,
                0 <= x <= width,
                out@ == rows_boundary(*lm, target_label, y as int) + row_boundary(
                    *lm,
                    target_label,
                    y as int,
                    x as int,
                ),
            decreases width - x,
        {
            if lm.get(x, y) == target_label && is_boundary_pixel_label(lm, x, y, target_label) {
                out.push((x, y));
            }
            x = x + 1;
        }
        y = y + 1;
    }
    out
}

/// One contour per label `1..=n` in label order, holding that label's
/// boundary pixels in raster order; a boundary of fewer than three pixels
/// gives no contour.
pub fn contours_from_labels(lm: &LabelMap, n: u32) -> (r: Vec<Contour>)
    requires
        lm.wf(),
    ensures
        contour_points(r@) == long_boundaries(*lm, n as nat),
{
    let mut contours: Vec<Contour> = Vec::new();
    let mut current_label: u64 = 1;
    while current_label <= n as u64
        invariant
            lm.wf(),
            1 <= current_label,
            current_label <= n + 1,
            contour_points(contours@) == long_boundaries(*lm, (current_label - 1) as nat),
        decreases n + 1 - current_label,
    {
        let boundary_pixels = extract_boundary(lm, current_label as u32);
        let ghost before = contours@;
        if boundary_pixels.len() >= 3 {
            contours.push(Contour { points: boundary_pixels });
            assert(contour_points(contours@) =~= contour_points(before).push(
                boundary(*lm, current_label as u32),
            ));
        }
        current_label = current_label + 1;
    }
    contours
}

/// The contours of the 4-connected foreground regions of `img` (pixels
/// brighter than 127): one per region that has at least three boundary
/// pixels, in the order in which a row-by-row scan meets the regions, each
/// holding its region's boundary pixels in raster order. A mask without
/// foreground has none.
pub fn find_contours(binary_img: &GrayMask) -> (r: Vec<Contour>)
    requires
        binary_img.wf(),
        binary_img.width * binary_img.height < u32::MAX,
    ensures
        exists|lm: LabelMap, seeds: Seq<(i32, i32)>|
            {
                &&& lm.wf()
                &&& lm.width == binary_img.width
                &&& lm.height == binary_img.height
                &&& labels_cover_components(*binary_img, lm)
                &&& #[trigger] seeds_describe(*binary_img, lm, seeds)
                &&& contour_points(r@) == long_boundaries(lm, seeds.len())
            },
        (forall|x: int, y: int| !#[trigger] binary_img.is_fg(x, y)) ==> r@.len() == 0,
{
    let (lm, seeds) = label_components(binary_img);
    proof {
        if seeds@.len() > 0 {
            let last = seeds@.len() - 1;
            assert(lm.lab(seeds@[last].0 as int, seeds@[last].1 as int) == last + 1);
        }
    }
    let n = seeds.len() as u32;
    let contours = contours_from_labels(&lm, n);
    proof {
        assert(seeds_describe(*binary_img, lm, seeds@));
        if forall|x: int, y: int| !#[trigger] binary_img.is_fg(x, y) {
            if seeds@.len() > 0 {
                assert(lm.lab(seeds@[0].0 as int, seeds@[0].1 as int) == 1);
            }
            assert(contour_points(contours@).len() == 0);
        }
    }
    contours
}

/// A copy of `v`.
pub fn copy_points(v: &Vec<(i32, i32)>) -> (r: Vec<(i32, i32)>)
    ensures
        r@ == v@,
{
    let n = v.len();
    let mut copy: Vec<(i32, i32)> = Vec::new();
    let mut j: usize = 0;
    while j < n
        invariant
            n == v@.len(),
            j <= n,
            copy@ == v@.subrange(0, j as int),
        decreases n - j,
    {
        copy.push(v[j]);
        assert(copy@ =~= v@.subrange(0, j + 1));
        j = j + 1;
    }
    assert(v@.subrange(0, n as int) =~= v@);
    copy
}

/// Cross product of the steps `a -> b` and `b -> c`: zero exactly when the
/// three points are collinear.
pub open spec fn cross(a: (i32, i32), b: (i32, i32), c: (i32, i32)) -> int {
    (b.0 - a.0) * (c.1 - b.1) - (b.1 - a.1) * (c.0 - b.0)
}

/// Whether `a`, `b`, `c` turn (are not collinear).
fn turns(a: (i32, i32), b: (i32, i32), c: (i32, i32)) -> (r: bool)
    ensures
        r <==> cross(a, b, c) != 0,
{
    let dx1: i64 = b.0 as i64 - a.0 as i64;
    let dy1: i64 = b.1 as i64 - a.1 as i64;
    let dx2: i64 = c.0 as i64 - b.0 as i64;
    let dy2: i64 = c.1 as i64 - b.1 as i64;
    assert(-0x1_0000_0000 * 0x1_0000_0000 <= dx1 * dy2 <= 0x1_0000_0000 * 0x1_0000_0000)
        by (nonlinear_arith)
        requires
            -0x1_0000_0000 <= dx1 <= 0x1_0000_0000,
            -0x1_0000_0000 <= dy2 <= 0x1_0000_0000,
    ;
    assert(-0x1_0000_0000 * 0x1_0000_0000 <= dy1 * dx2 <= 0x1_0000_0000 * 0x1_0000_0000)
        by (nonlinear_arith)
        requires
            -0x1_0000_0000 <= dy1 <= 0x1_0000_0000,
            -0x1_0000_0000 <= dx2 <= 0x1_0000_0000,
    ;
    (dx1 as i128) * (dy2 as i128) != (dy1 as i128) * (dx2 as i128)
}

/// What `approx_simple` has kept after looking at the points before index
/// `k`: the first point, then each middle point `s[i]` (`1 <= i < k`) at which
/// `s[i - 1], s[i], s[i + 1]` turn.
pub open spec fn approx_acc(s: Seq<(i32, i32)>, k: int) -> Seq<(i32, i32)>
    decreases k,
{
    if k <= 1 {
        seq![s[0]]
    } else {
        let prev = approx_acc(s, k - 1);
        let i = k - 1;
        if cross(s[i - 1], s[i], s[i + 1]) != 0 {
            prev.push(s[i])
        } else {
            prev
        }
    }
}

/// The points that `approx_simple` keeps.
pub open spec fn approx_simple_points(s: Seq<(i32, i32)>) -> Seq<(i32, i32)> {
    if s.len() <= 2 {
        s
    } else {
        approx_acc(s, s.len() - 1).push(s.last())
    }
}

/// Drops each middle point that lies on the line through its two neighbours
/// in the input; the first and last points always stay.
pub fn approx_simple(contour: &Contour) -> (r: Contour)
    ensures
        r.points@ == approx_simple_points(contour.points@),
{
    let pts = &contour.points;
    let n = pts.len();
    if n <= 2 {
        return Contour { points: copy_points(pts) };
    }
    let mut result = Contour::new();
    result.points.push(pts[0]);
    let mut i: usize = 1;
    while i < n - 1
        invariant
            n == pts@.len(),
            n > 2,
            1 <= i <= n - 1,
            result.points@ == approx_acc(pts@, i as int),
        decreases n - i,
    {
        let prev = pts[i - 1];
        let curr = pts[i];
        let next = pts[i + 1];
        if turns(prev, curr, next) {
            result.points.push(curr);
        }
        i = i + 1;
    }
    result.points.push(pts[n - 1]);
    result
}

/// What `simplify_contour` has kept after looking at the points before index
/// `k`: the first point, then each middle point `s[i]` (`1 <= i < k`) at which
/// the last point kept, `s[i]` and `s[i + 1]` turn.
pub open spec fn simplify_acc(s: Seq<(i32, i32)>, k: int) -> Seq<(i32, i32)>
    decreases k,
{
    if k <= 1 {
        seq![s[0]]
    } else {
        let prev = simplify_acc(s, k - 1);
        let i = k - 1;
        if cross(prev.last(), s[i], s[i + 1]) != 0 {
            prev.push(s[i])
        } else {
            prev
        }
    }
}

/// The points that `simplify_contour` keeps.
pub open spec fn simplify_points(s: Seq<(i32, i32)>) -> Seq<(i32, i32)> {
    if s.len() <= 3 {
        s
    } else {
        simplify_acc(s, s.len() - 1).push(s.last())
    }
}

proof fn lemma_simplify_acc_nonempty(s: Seq<(i32, i32)>, k: int)
    ensures
        simplify_acc(s, k).len() >= 1,
    decreases k,
{
    if k > 1 {
        lemma_simplify_acc_nonempty(s, k - 1);
    }
}

/// Drops each middle point that lies on the line through the last point
/// kept and the next input point; the first and last points always stay.
pub fn simplify_contour(points: &Vec<(i32, i32)>) -> (r: Vec<(i32, i32)>)
    ensures
        r@ == simplify_points(points@),
{
    let n = points.len();
    if n <= 3 {
        return copy_points(points);
    }
    let mut simplified: Vec<(i32, i32)> = Vec::new();
    simplified.push(points[0]);
    let mut i: usize = 1;
    while i < n - 1
        invariant
            n == points@.len(),
            n > 3,
            1 <= i <= n - 1,
            simplified@ == simplify_acc(points@, i as int),
        decreases n - i,
    {
        proof {
            lemma_simplify_acc_nonempty(points@, i as int);
        }
        let prev = simplified[simplified.len() - 1];
        let curr = points[i];
        let next = points[i + 1];
        if turns(prev, curr, next) {
            simplified.push(curr);
        }
        i = i + 1;
    }
    simplified.push(points[n - 1]);
    simplified
}

/// Step `k` of the eight directions `(di, dj)` (row, column), turning from
/// east through north: E, NE, N, NW, W, SW, S, SE.
pub open spec fn dir8(k: int) -> (int, int) {
    if k == 0 {
        (0, 1)
    } else if k == 1 {
        (-1, 1)
    } else if k == 2 {
        (-1, 0)
    } else if k == 3 {
        (-1, -1)
    } else if k == 4 {
        (0, -1)
    } else if k == 5 {
        (1, -1)
    } else if k == 6 {
        (1, 0)
    } else {
        (1, 1)
    }
}

fn dir8_exec(k: usize) -> (r: (i32, i32))
    requires
        k < 8,
    ensures
        (r.0 as int, r.1 as int) == dir8(k as int),
{
    if k == 0 {
        (0, 1)
    } else if k == 1 {
        (-1, 1)
    } else if k == 2 {
        (-1, 0)
    } else if k == 3 {
        (-1, -1)
    } else if k == 4 {
        (0, -1)
    } else if k == 5 {
        (1, -1)
    } else if k == 6 {
        (1, 0)
    } else {
        (1, 1)
    }
}

/// The grid has `rows > 0` rows of one length each, and both sides fit `i32`.
pub open spec fn grid_wf(img: Seq<Vec<u8>>) -> bool {
    &&& img.len() > 0
    &&& img.len() <= i32::MAX
    &&& img[0]@.len() <= i32::MAX
    &&& forall|r: int| 0 <= r < img.len() ==> #[trigger] img[r]@.len() == img[0]@.len()
}

/// `(i, j)` is a cell of the grid with a nonzero value.
pub open spec fn grid_on(img: Seq<Vec<u8>>, i: int, j: int) -> bool {
    0 <= i < img.len() && 0 <= j < img[0]@.len() && img[i]@[j] >= 1
}

/// The direction after the one that leads from `curr` to `prev`; 0 when
/// `prev` is not one of `curr`'s eight neighbours.
pub open spec fn search_start(curr: (int, int), prev: (int, int)) -> int {
    if exists|k: int| 0 <= k < 8 && #[trigger] dir8(k) == (prev.0 - curr.0, prev.1 - curr.1) {
        let k = choose|k: int| 0 <= k < 8 && #[trigger] dir8(k) == (prev.0 - curr.0, prev.1 - curr.1);
        (k + 1) % 8
    } else {
        0
    }
}

/// The first nonzero neighbour of `curr`, looking clockwise through
/// directions `s + k, s + k + 1, ..., s + 7` (mod 8).
pub open spec fn probe(img: Seq<Vec<u8>>, curr: (int, int), s: int, k: int) -> Option<(int, int)>
    decreases 8 - k,
{
    if k >= 8 {
        None
    } else {
        let d = dir8((s + k) % 8);
        let n = (curr.0 + d.0, curr.1 + d.1);
        if grid_on(img, n.0, n.1) {
            Some(n)
        } else {
            probe(img, curr, s, k + 1)
        }
    }
}

/// The next border pixel after `curr`, coming from `prev`.
pub open spec fn next_border(img: Seq<Vec<u8>>, curr: (int, int), prev: (int, int)) -> Option<(int, int)> {
    probe(img, curr, search_start(curr, prev), 0)
}

pub open spec fn as_int_pair(p: (i32, i32)) -> (int, int) {
    (p.0 as int, p.1 as int)
}

/// The pixel before the one at index `k` of a trace that started from
/// `second`.
pub open spec fn trace_prev(trace: Seq<(i32, i32)>, second: (int, int), k: int) -> (int, int) {
    if k == 1 {
        second
    } else {
        as_int_pair(trace[k - 2])
    }
}

/// Every step of `trace` after the first goes to the next border pixel, and
/// none returns to `start` once the border (`o` points before the trace)
/// holds more than two.
#[verifier::opaque]
pub open spec fn trace_steps(
    img: Seq<Vec<u8>>,
    trace: Seq<(i32, i32)>,
    start: (int, int),
    second: (int, int),
    o: int,
) -> bool {
    forall|k: int|
        1 <= k < trace.len() ==> {
            &&& next_border(img, as_int_pair(trace[k - 1]), trace_prev(trace, second, k)) == Some(
                as_int_pair(#[trigger] trace[k]),
            )
            &&& !(as_int_pair(trace[k]) == start && o + k > 2)
        }
}

proof fn lemma_trace_push(
    img: Seq<Vec<u8>>,
    trace: Seq<(i32, i32)>,
    start: (int, int),
    second: (int, int),
    o: int,
    next: (i32, i32),
)
    requires
        trace.len() >= 1,
        trace_steps(img, trace, start, second, o),
        next_border(img, as_int_pair(trace.last()), trace_prev(trace, second, trace.len() as int))
            == Some(as_int_pair(next)),
        !(as_int_pair(next) == start && o + trace.len() > 2),
    ensures
        trace_steps(img, trace.push(next), start, second, o),
{
    reveal(trace_steps);
    let t2 = trace.push(next);
    assert forall|k: int| 1 <= k < t2.len() implies {
        &&& next_border(img, as_int_pair(t2[k - 1]), trace_prev(t2, second, k)) == Some(
            as_int_pair(#[trigger] t2[k]),
        )
        &&& !(as_int_pair(t2[k]) == start && o + k > 2)
    } by {
        if k < trace.len() {
            assert(t2[k] == trace[k] && t2[k - 1] == trace[k - 1]);
            assert(trace_prev(t2, second, k) == trace_prev(trace, second, k));
        } else {
            assert(t2[k - 1] == trace.last());
            assert(trace_prev(t2, second, k) == trace_prev(trace, second, trace.len() as int));
        }
    }
}

/// Why a trace ended: the step budget ran out, no neighbour was found, or
/// the next pixel is the start of a border of more than two points.
#[verifier::opaque]
pub open spec fn trace_stopped(
    img: Seq<Vec<u8>>,
    trace: Seq<(i32, i32)>,
    start: (int, int),
    second: (int, int),
    o: int,
    max_steps: int,
) -> bool {
    let last = as_int_pair(trace.last());
    let nb = next_border(img, last, trace_prev(trace, second, trace.len() as int));
    ||| trace.len() - 1 == max_steps
    ||| nb.is_none()
    ||| (nb == Some(start) && o + trace.len() > 2)
}

/// The direction after the one that leads from `(ci, cj)` to `(pi, pj)`, or
/// 0 when that is no neighbour.
fn search_direction(ci: i32, cj: i32, pi: i32, pj: i32) -> (r: usize)
    requires
        0 <= ci < i32::MAX,
        0 <= cj < i32::MAX,
    ensures
        r < 8,
        r as int == search_start((ci as int, cj as int), (pi as int, pj as int)),
{
    let ghost delta = (pi - ci, pj - cj);
    let mut idx: usize = 0;
    while idx < 8
        invariant
            idx <= 8,
            0 <= ci < i32::MAX,
            0 <= cj < i32::MAX,
            delta == (pi - ci, pj - cj),
            forall|m: int| 0 <= m < idx ==> #[trigger] dir8(m) != delta,
        decreases 8 - idx,
    {
        let (di, dj) = dir8_exec(idx);
        if ci + di == pi && cj + dj == pj {
            proof {
                assert(dir8(idx as int) == delta);
                assert forall|m: int| 0 <= m < 8 && #[trigger] dir8(m) == delta implies m
                    == idx by {}
            }
            return (idx + 1) % 8;
        }
        idx = idx + 1;
    }
    proof {
        assert forall|m: int| 0 <= m < 8 implies #[trigger] dir8(m) != delta by {}
    }
    0
}

/// The first nonzero neighbour of `(ci, cj)`, looking clockwise from
/// direction `s`.
fn first_on_neighbour(img: &Vec<Vec<u8>>, ci: i32, cj: i32, s: usize) -> (r: Option<(i32, i32)>)
    requires
        grid_wf(img@),
        0 <= ci < img@.len(),
        0 <= cj < img@[0]@.len(),
        s < 8,
    ensures
        match r {
            None => probe(img@, (ci as int, cj as int), s as int, 0).is_none(),
            Some(p) => probe(img@, (ci as int, cj as int), s as int, 0) == Some(as_int_pair(p))
                && 0 <= p.0 < img@.len() && 0 <= p.1 < img@[0]@.len(),
        },
{
    let rows = img.len();
    let cols = img[0].len();
    let ghost curr = (ci as int, cj as int);
    let mut k: usize = 0;
    while k < 8
        invariant
            k <= 8,
            s < 8,
            grid_wf(img@),
            rows == img@.len(),
            cols == img@[0]@.len(),
            0 <= ci < rows,
            0 <= cj < cols,
            curr == (ci as int, cj as int),
            probe(img@, curr, s as int, 0) == probe(img@, curr, s as int, k as int),
        decreases 8 - k,
    {
        let (di, dj) = dir8_exec((s + k) % 8);
        let ni = ci + di;
        let nj = cj + dj;
        if ni >= 0 && ni < rows as i32 && nj >= 0 && nj < cols as i32 {
            assert(img@[ni as int]@.len() == cols);
            if img[ni as usize][nj as usize] >= 1 {
                return Some((ni, nj));
            }
        }
        k = k + 1;
    }
    None
}

/// Traces a border from `(start_i, start_j)`: each next pixel is the first
/// nonzero neighbour clockwise after the direction back to the previous
/// pixel (`(second_i, second_j)` for the first step). The trace, start
/// included, is appended to `border`; it stops on returning to the start
/// once `border` holds more than two points, when no neighbour is nonzero,
/// or after `2 * rows * cols` steps.
fn follow_border(
    img: &Vec<Vec<u8>>,
    start_i: i32,
    start_j: i32,
    second_i: i32,
    second_j: i32,
    border: &mut Vec<(i32, i32)>,
)
    requires
        grid_wf(img@),
        img@.len() * img@[0]@.len() * 2 <= usize::MAX,
        0 <= start_i < img@.len(),
        0 <= start_j < img@[0]@.len(),
    ensures
        final(border)@.len() > old(border)@.len(),
        final(border)@.subrange(0, old(border)@.len() as int) == old(border)@,
        ({
            let o = old(border)@.len() as int;
            let trace = final(border)@.subrange(o, final(border)@.len() as int);
            let start = (start_i as int, start_j as int);
            let second = (second_i as int, second_j as int);
            let max_steps = (img@.len() * img@[0]@.len() * 2) as int;
            &&& trace[0] == (start_i, start_j)
            &&& trace.len() - 1 <= max_steps
            &&& trace_steps(img@, trace, start, second, o)
            &&& trace_stopped(img@, trace, start, second, o, max_steps)
        }),
{
    let ghost o = border@.len() as int;
    let ghost second = (second_i as int, second_j as int);
    let ghost start = (start_i as int, start_j as int);
    let rows = img.len();
    let cols = img[0].len();
    border.push((start_i, start_j));
    proof {
        reveal(trace_steps);
        assert(border@.subrange(o, border@.len() as int).len() == 1);
        assert(trace_steps(img@, border@.subrange(o, border@.len() as int), start, second, o));
        assert(border@.subrange(0, o) =~= old(border)@);
    }
    let mut curr_i = start_i;
    let mut curr_j = start_j;
    let mut prev_i = second_i;
    let mut prev_j = second_j;
    let mut step_count: usize = 0;
    let max_steps = (rows * cols) * 2;
    loop
        invariant_except_break
            o == old(border)@.len(),
            second == (second_i as int, second_j as int),
            start == (start_i as int, start_j as int),
            grid_wf(img@),
            rows == img@.len(),
            cols == img@[0]@.len(),
            max_steps == rows * cols * 2,
            0 <= curr_i < rows,
            0 <= curr_j < cols,
            step_count <= max_steps,
            border@.len() == o + 1 + step_count,
            border@.subrange(0, o) == old(border)@,
            border@[o] == (start_i, start_j),
            border@.last() == (curr_i, curr_j),
            (prev_i as int, prev_j as int) == trace_prev(
                border@.subrange(o, border@.len() as int),
                second,
                border@.len() - o,
            ),
            trace_steps(img@, border@.subrange(o, border@.len() as int), start, second, o),
        ensures
            o == old(border)@.len(),
            second == (second_i as int, second_j as int),
            start == (start_i as int, start_j as int),
            border@.len() > o,
            border@.subrange(0, o) == old(border)@,
            border@[o] == (start_i, start_j),
            border@.len() - o - 1 <= max_steps,
            trace_steps(img@, border@.subrange(o, border@.len() as int), start, second, o),
            trace_stopped(img@, border@.subrange(o, border@.len() as int), start, second, o, max_steps as int),
        decreases max_steps - step_count,
    {
        if step_count >= max_steps {
            assert(trace_stopped(
                img@,
                border@.subrange(o, border@.len() as int),
                start,
                second,
                o,
                max_steps as int,
            )) by {
                reveal(trace_stopped);
            }
            break;
        }
        let ghost curr = (curr_i as int, curr_j as int);
        let ghost prev = (prev_i as int, prev_j as int);
        let ghost trace = border@.subrange(o, border@.len() as int);
        assert(trace.len() == border@.len() - o);
        assert(trace.last() == border@.last());
        let search_dir = search_direction(curr_i, curr_j, prev_i, prev_j);
        let next = first_on_neighbour(img, curr_i, curr_j, search_dir);
        match next {
            None => {
                assert(trace_stopped(img@, trace, start, second, o, max_steps as int)) by {
                    reveal(trace_stopped);
                }
                break;
            },
            Some((ni, nj)) => {
                if ni == start_i && nj == start_j && border.len() > 2 {
                    assert(trace_stopped(img@, trace, start, second, o, max_steps as int)) by {
                        reveal(trace_stopped);
                    }
                    return;
                }
                border.push((ni, nj));
                proof {
                    let t2 = border@.subrange(o, border@.len() as int);
                    assert(t2 =~= trace.push((ni, nj)));
                    lemma_trace_push(img@, trace, start, second, o, (ni, nj));
                    assert(border@.subrange(0, o) =~= old(border)@);
                }
                prev_i = curr_i;
                prev_j = curr_j;
                curr_i = ni;
                curr_j = nj;
            },
        }
        step_count = step_count + 1;
    }
}

} // verus!

//! The integer stages of text-region detection: dilating the mask, finding
//! contours, ordering them by area, and keeping the candidates that the
//! box-fitting stage accepts.
use vstd::prelude::*;

use crate::contours::{contour_points, copy_points, find_contours, long_boundaries, Contour};
use crate::labels::{labels_cover_components, seeds_describe, LabelMap};
use crate::raster::{dilate_2x2, dilated_at, GrayMask};

verus! {

/// Shoelace term of edge `i` of the closed polygon `s`: the edge from `s[i]`
/// to the next point, wrapping to `s[0]` after the last.
pub open spec fn shoelace_term(s: Seq<(i32, i32)>, i: int) -> int {
    let p = s[i];
    let q = if i + 1 < s.len() {
        s[i + 1]
    } else {
        s[0]
    };
    p.0 * q.1 - q.0 * p.1
}

/// Sum of the shoelace terms of edges `0..k`.
pub open spec fn shoelace_sum(s: Seq<(i32, i32)>, k: int) -> int
    decreases k,
{
    if k <= 0 {
        0
    } else {
        shoelace_sum(s, k - 1) + shoelace_term(s, k - 1)
    }
}

/// Twice the area that the shoelace formula gives for the closed polygon
/// through `s` in order; 0 for fewer than three points.
pub open spec fn double_area(s: Seq<(i32, i32)>) -> int {
    if s.len() < 3 {
        0
    } else {
        let a = shoelace_sum(s, s.len() as int);
        if a < 0 {
            -a
        } else {
            a
        }
    }
}

/// Twice the area of the polygon through the contour's points, by the
/// shoelace formula; 0 for fewer than three points. Kept doubled, the area
/// of a polygon with integer vertices is an integer.
pub fn contour_area_twice(contour: &Contour) -> (r: u128)
    ensures
        r == double_area(contour.points@),
{
    let pts = &contour.points;
    let n = pts.len();
    if n < 3 {
        return 0;
    }
    let mut acc: i128 = 0;
    let mut i: usize = 0;
    while i < n
        invariant
            n == pts@.len(),
            n >= 3,
            i <= n,
            acc == shoelace_sum(pts@, i as int),
            -(i as int) * 0x8000_0000_0000_0000 <= acc <= (i as int) * 0x8000_0000_0000_0000,
        decreases n - i,
    {
        let p = pts[i];
        let q = if i + 1 < n {
            pts[i + 1]
        } else {
            pts[0]
        };
        assert(-0x4000_0000_0000_0000 <= (p.0 as int) * (q.1 as int) <= 0x4000_0000_0000_0000)
            by (nonlinear_arith)
            requires
                -0x8000_0000 <= p.0 < 0x8000_0000,
                -0x8000_0000 <= q.1 < 0x8000_0000,
        ;
        assert(-0x4000_0000_0000_0000 <= (q.0 as int) * (p.1 as int) <= 0x4000_0000_0000_0000)
            by (nonlinear_arith)
            requires
                -0x8000_0000 <= q.0 < 0x8000_0000,
                -0x8000_0000 <= p.1 < 0x8000_0000,
        ;
        let a: i64 = p.0 as i64 * q.1 as i64;
        let b: i64 = q.0 as i64 * p.1 as i64;
        assert(-0x8000_0000_0000_0000 <= (a - b) <= 0x8000_0000_0000_0000) by (nonlinear_arith)
            requires
                a == p.0 as i64 * q.1 as i64,
                b == q.0 as i64 * p.1 as i64,
                -0x8000_0000 <= p.0 < 0x8000_0000,
                -0x8000_0000 <= p.1 < 0x8000_0000,
                -0x8000_0000 <= q.0 < 0x8000_0000,
                -0x8000_0000 <= q.1 < 0x8000_0000,
        ;
        acc = acc + (a as i128 - b as i128);
        i = i + 1;
    }
    if acc < 0 {
        (-acc) as u128
    } else {
        acc as u128
    }
}

/// `a` ranks before `b`: a larger key, or the same key and a smaller index.
pub open spec fn ranks_before(keys: Seq<u128>, a: usize, b: usize) -> bool {
    keys[a as int] > keys[b as int] || (keys[a as int] == keys[b as int] && a < b)
}

/// `order` lists each index of `keys` once, by decreasing key, indices with
/// equal keys in increasing order.
pub open spec fn is_desc_order(keys: Seq<u128>, order: Seq<usize>) -> bool {
    &&& order.len() == keys.len()
    &&& forall|j: int| 0 <= j < order.len() ==> #[trigger] order[j] < keys.len()
    &&& forall|j: int, k: int|
        0 <= j < k < order.len() ==> ranks_before(keys, #[trigger] order[j], #[trigger] order[k])
    &&& forall|m: int| 0 <= m < keys.len() ==> #[trigger] listed(order, m)
}

/// `m` occurs in `order`.
pub open spec fn listed(order: Seq<usize>, m: int) -> bool {
    exists|j: int| 0 <= j < order.len() && #[trigger] order[j] == m
}

/// The indices of `keys` by decreasing key; equal keys keep their relative
/// order, as a stable sort would.
pub fn order_by_key_desc(keys: &Vec<u128>) -> (r: Vec<usize>)
    ensures
        is_desc_order(keys@, r@),
{
    let n = keys.len();
    let mut out: Vec<usize> = Vec::new();
    let mut i: usize = 0;
    while i < n
        invariant
            n == keys@.len(),
            i <= n,
            out@.len() == i,
            forall|j: int| 0 <= j < out@.len() ==> #[trigger] out@[j] < i,
            forall|j: int, k: int|
                0 <= j < k < out@.len() ==> ranks_before(keys@, #[trigger] out@[j], #[trigger] out@[k]),
            forall|m: int| 0 <= m < i ==> #[trigger] listed(out@, m),
        decreases n - i,
    {
        let key = keys[i];
        let mut p: usize = 0;
        while p < out.len() && keys[out[p]] >= key
            invariant
                n == keys@.len(),
                i < n,
                key == keys@[i as int],
                out@.len() == i,
                p <= out@.len(),
                forall|j: int| 0 <= j < out@.len() ==> #[trigger] out@[j] < i,
                forall|j: int| 0 <= j < p ==> keys@[#[trigger] out@[j] as int] >= key,
            decreases out@.len() - p,
        {
            p = p + 1;
        }
        let ghost before = out@;
        proof {
            assert forall|j: int| p <= j < before.len() implies keys@[#[trigger] before[j] as int] < key by {
                if j > p {
                    assert(ranks_before(keys@, before[p as int], before[j]));
                }
            }
        }
        out.insert(p, i);
        proof {
            assert(out@ == before.insert(p as int, i));
            assert forall|j: int| 0 <= j < out@.len() implies #[trigger] out@[j] < i + 1 by {
                if j < p {
                    assert(out@[j] == before[j]);
                } else if j > p {
                    assert(out@[j] == before[j - 1]);
                }
            }
            assert forall|j: int, k: int|
                0 <= j < k < out@.len() implies ranks_before(keys@, #[trigger] out@[j], #[trigger] out@[k]) by {
                if k < p {
                    assert(out@[j] == before[j] && out@[k] == before[k]);
                } else if k == p {
                    assert(out@[j] == before[j]);
                } else if j < p {
                    assert(out@[j] == before[j] && out@[k] == before[k - 1]);
                } else if j == p {
                    assert(out@[k] == before[k - 1]);
                } else {
                    assert(out@[j] == before[j - 1] && out@[k] == before[k - 1]);
                }
            }
            assert forall|m: int| 0 <= m < i + 1 implies #[trigger] listed(out@, m) by {
                if m == i {
                    assert(out@[p as int] == m);
                } else {
                    assert(listed(before, m));
                    let j0 = choose|j: int| 0 <= j < before.len() && #[trigger] before[j] == m;
                    if j0 < p {
                        assert(out@[j0] == m);
                    } else {
                        assert(out@[j0 + 1] == m);
                    }
                }
            }
        }
        i = i + 1;
    }
    out
}

/// Twice the area of each contour.
pub open spec fn double_areas(cs: Seq<Seq<(i32, i32)>>) -> Seq<u128> {
    cs.map_values(|c: Seq<(i32, i32)>| double_area(c) as u128)
}

/// The contours at `order[0..k]` that have at least four points, in that
/// order.
pub open spec fn picked(cs: Seq<Seq<(i32, i32)>>, order: Seq<usize>, k: int) -> Seq<Seq<(i32, i32)>>
    decreases k,
{
    if k <= 0 {
        Seq::empty()
    } else {
        let prev = picked(cs, order, k - 1);
        let c = cs[order[k - 1] as int];
        if c.len() >= 4 {
            prev.push(c)
        } else {
            prev
        }
    }
}

pub open spec fn min_int(a: int, b: int) -> int {
    if a <= b {
        a
    } else {
        b
    }
}

/// `r` is what candidate selection keeps of `cs`: the contours ordered by
/// decreasing area (a stable order), cut to the first `max_candidates`, less
/// those with fewer than four points.
pub open spec fn selected_from(
    cs: Seq<Seq<(i32, i32)>>,
    max_candidates: int,
    r: Seq<Seq<(i32, i32)>>,
) -> bool {
    exists|order: Seq<usize>|
        #[trigger] is_desc_order(double_areas(cs), order) && r == picked(
            cs,
            order,
            min_int(cs.len() as int, max_candidates),
        )
}

/// Orders `contours` by decreasing area (equal areas keep their order),
/// keeps the first `max_candidates`, and of those the contours with at least
/// four points, which a minimum-area rectangle needs.
pub fn select_candidates(contours: &Vec<Contour>, max_candidates: usize) -> (r: Vec<Contour>)
    ensures
        selected_from(contour_points(contours@), max_candidates as int, contour_points(r@)),
{
    let n = contours.len();
    let mut areas: Vec<u128> = Vec::new();
    let mut i: usize = 0;
    while i < n
        invariant
            n == contours@.len(),
            i <= n,
            areas@ == double_areas(contour_points(contours@)).subrange(0, i as int),
        decreases n - i,
    {
        let a = contour_area_twice(&contours[i]);
        areas.push(a);
        assert(areas@ =~= double_areas(contour_points(contours@)).subrange(0, i + 1));
        i = i + 1;
    }
    assert(areas@ =~= double_areas(contour_points(contours@)));
    let order = order_by_key_desc(&areas);
    let num = if n < max_candidates {
        n
    } else {
        max_candidates
    };
    let ghost cs = contour_points(contours@);
    let mut out: Vec<Contour> = Vec::new();
    let mut k: usize = 0;
    while k < num
        invariant
            n == contours@.len(),
            cs == contour_points(contours@),
            areas@ == double_areas(cs),
            is_desc_order(areas@, order@),
            num <= n,
            k <= num,
            contour_points(out@) == picked(cs, order@, k as int),
        decreases num - k,
    {
        let idx = order[k];
        let c = &contours[idx];
        let ghost before = out@;
        if c.points.len() >= 4 {
            out.push(Contour { points: copy_points(&c.points) });
            assert(contour_points(out@) =~= contour_points(before).push(cs[idx as int]));
        }
        k = k + 1;
    }
    assert(is_desc_order(double_areas(cs), order@));
    out
}

/// `m` is the mask that contour search runs on: `mask` itself, or its 2 x 2
/// dilation when `use_dilation` is set.
pub open spec fn search_mask(mask: GrayMask, use_dilation: bool, m: GrayMask) -> bool {
    &&& m.wf()
    &&& m.width == mask.width
    &&& m.height == mask.height
    &&& if use_dilation {
        forall|x: int, y: int| #[trigger] mask.in_bounds(x, y) ==> m.at(x, y) == dilated_at(mask, x, y)
    } else {
        m.pixels@ == mask.pixels@
    }
}

/// `cs` are the contours of the foreground regions of `m`, as
/// `find_contours` gives them.
pub open spec fn contours_of(m: GrayMask, cs: Seq<Seq<(i32, i32)>>) -> bool {
    exists|lm: LabelMap, seeds: Seq<(i32, i32)>|
        {
            &&& lm.wf()
            &&& lm.width == m.width
            &&& lm.height == m.height
            &&& labels_cover_components(m, lm)
            &&& #[trigger] seeds_describe(m, lm, seeds)
            &&& cs == long_boundaries(lm, seeds.len())
        }
}

/// The contours of a binary mask that go on to box fitting: the mask is
/// dilated when `use_dilation` is set, its region contours are found, ordered
/// by decreasing area and cut to `max_candidates`, and those with fewer than
/// four points are dropped. A mask without foreground gives none.
pub fn contour_candidates(mask: &GrayMask, use_dilation: bool, max_candidates: usize) -> (r: Vec<
    Contour,
>)
    requires
        mask.wf(),
        mask.width * mask.height < u32::MAX,
    ensures
        exists|m: GrayMask, cs: Seq<Seq<(i32, i32)>>|
            #![trigger search_mask(*mask, use_dilation, m), contours_of(m, cs)]
            search_mask(*mask, use_dilation, m) && contours_of(m, cs) && selected_from(
                cs,
                max_candidates as int,
                contour_points(r@),
            ),
        (forall|x: int, y: int| !#[trigger] mask.is_fg(x, y)) ==> r@.len() == 0,
{
    let m = if use_dilation {
        dilate_2x2(mask)
    } else {
        GrayMask { width: mask.width, height: mask.height, pixels: copy_bytes(&mask.pixels) }
    };
    proof {
        if forall|x: int, y: int| !#[trigger] mask.is_fg(x, y) {
            assert forall|x: int, y: int| !#[trigger] m.is_fg(x, y) by {
                if m.in_bounds(x, y) {
                    if use_dilation {
                        let x1 = if x + 1 > m.width - 1 { m.width - 1 } else { x + 1 };
                        let y1 = if y + 1 > m.height - 1 { m.height - 1 } else { y + 1 };
                        assert(!mask.is_fg(x, y) && !mask.is_fg(x1, y) && !mask.is_fg(x, y1)
                            && !mask.is_fg(x1, y1));
                    } else {
                        assert(!mask.is_fg(x, y));
                    }
                }
            }
        }
    }
    let contours = find_contours(&m);
    let r = select_candidates(&contours, max_candidates);
    proof {
        let cs = contour_points(contours@);
        assert(search_mask(*mask, use_dilation, m));
        assert(contours_of(m, cs));
        if forall|x: int, y: int| !#[trigger] mask.is_fg(x, y) {
            assert(cs.len() == 0);
            let order = choose|order: Seq<usize>|
                #[trigger] is_desc_order(double_areas(cs), order) && contour_points(r@) == picked(
                    cs,
                    order,
                    min_int(cs.len() as int, max_candidates as int),
                );
            assert(contour_points(r@).len() == 0);
        }
    }
    r
}

/// A copy of `v`.
fn copy_bytes(v: &Vec<u8>) -> (r: Vec<u8>)
    ensures
        r@ == v@,
{
    let n = v.len();
    let mut copy: Vec<u8> = Vec::new();
    let mut j: usize = 0;
    while j < n
        invariant
            n == v@.len(),
            j <= n,
            copy@ == v@.subrange(0, j as int),
        decreases n - j,
    {
        copy.push(v[j]);
        assert(copy@ =~= v@.subrange(0, j + 1));
        j = j + 1;
    }
    assert(v@.subrange(0, n as int) =~= v@);
    copy
}

/// Box `a` comes before box `b` in reading order: its key `(row, column)`
/// is smaller, row first; equal keys keep their index order.
pub open spec fn reads_before(keys: Seq<(i32, i32)>, a: usize, b: usize) -> bool {
    let (ka, kb) = (keys[a as int], keys[b as int]);
    ka.0 < kb.0 || (ka.0 == kb.0 && ka.1 < kb.1) || (ka == kb && a < b)
}

/// `order` lists each index of `keys` once, in reading order.
pub open spec fn is_reading_order(keys: Seq<(i32, i32)>, order: Seq<usize>) -> bool {
    &&& order.len() == keys.len()
    &&& forall|j: int| 0 <= j < order.len() ==> #[trigger] order[j] < keys.len()
    &&& forall|j: int, k: int|
        0 <= j < k < order.len() ==> reads_before(keys, #[trigger] order[j], #[trigger] order[k])
    &&& forall|m: int| 0 <= m < keys.len() ==> #[trigger] listed(order, m)
}

/// `a` is at most `b`, row first.
fn key_le(a: (i32, i32), b: (i32, i32)) -> (r: bool)
    ensures
        r == (a.0 < b.0 || (a.0 == b.0 && a.1 <= b.1)),
{
    a.0 < b.0 || (a.0 == b.0 && a.1 <= b.1)
}

/// The indices of detection boxes in reading order, from the whole-pixel
/// `(row, column)` of each box's top-left corner: by row, then by column,
/// boxes with the same key in their own order.
pub fn reading_order(keys: &Vec<(i32, i32)>) -> (r: Vec<usize>)
    ensures
        is_reading_order(keys@, r@),
{
    let n = keys.len();
    let mut out: Vec<usize> = Vec::new();
    let mut i: usize = 0;
    while i < n
        invariant
            n == keys@.len(),
            i <= n,
            out@.len() == i,
            forall|j: int| 0 <= j < out@.len() ==> #[trigger] out@[j] < i,
            forall|j: int, k: int|
                0 <= j < k < out@.len() ==> reads_before(keys@, #[trigger] out@[j], #[trigger] out@[k]),
            forall|m: int| 0 <= m < i ==> #[trigger] listed(out@, m),
        decreases n - i,
    {
        let key = keys[i];
        let mut p: usize = 0;
        while p < out.len() && key_le(keys[out[p]], key)
            invariant
                n == keys@.len(),
                i < n,
                key == keys@[i as int],
                out@.len() == i,
                p <= out@.len(),
                forall|j: int| 0 <= j < out@.len() ==> #[trigger] out@[j] < i,
                forall|j: int|
                    0 <= j < p ==> {
                        let kj = keys@[#[trigger] out@[j] as int];
                        kj.0 < key.0 || (kj.0 == key.0 && kj.1 <= key.1)
                    },
            decreases out@.len() - p,
        {
            p = p + 1;
        }
        let ghost before = out@;
        proof {
            assert forall|j: int| p <= j < before.len() implies {
                let kj = keys@[#[trigger] before[j] as int];
                key.0 < kj.0 || (key.0 == kj.0 && key.1 < kj.1)
            } by {
                if j > p {
                    assert(reads_before(keys@, before[p as int], before[j]));
                }
            }
        }
        out.insert(p, i);
        proof {
            assert(out@ == before.insert(p as int, i));
            assert forall|j: int| 0 <= j < out@.len() implies #[trigger] out@[j] < i + 1 by {
                if j < p {
                    assert(out@[j] == before[j]);
                } else if j > p {
                    assert(out@[j] == before[j - 1]);
                }
            }
            assert forall|j: int, k: int|
                0 <= j < k < out@.len() implies reads_before(keys@, #[trigger] out@[j], #[trigger] out@[k]) by {
                if k < p {
                    assert(out@[j] == before[j] && out@[k] == before[k]);
                } else if k == p {
                    assert(out@[j] == before[j]);
                } else if j < p {
                    assert(out@[j] == before[j] && out@[k] == before[k - 1]);
                } else if j == p {
                    assert(out@[k] == before[k - 1]);
                } else {
                    assert(out@[j] == before[j - 1] && out@[k] == before[k - 1]);
                }
            }
            assert forall|m: int| 0 <= m < i + 1 implies #[trigger] listed(out@, m) by {
                if m == i {
                    assert(out@[p as int] == m);
                } else {
                    assert(listed(before, m));
                    let j0 = choose|j: int| 0 <= j < before.len() && #[trigger] before[j] == m;
                    if j0 < p {
                        assert(out@[j0] == m);
                    } else {
                        assert(out@[j0 + 1] == m);
                    }
                }
            }
        }
        i = i + 1;
    }
    out
}

} // verus!

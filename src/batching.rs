//! Batching of text-line crops for recognition: crops go to the recogniser
//! in order of increasing aspect ratio, in batches of a fixed size, and the
//! results go back to each crop's own position.
use vstd::prelude::*;

use crate::raster::Size;

verus! {

/// Height used as the denominator of an aspect ratio: at least 1.
pub open spec fn denom(s: Size) -> int {
    if s.height >= 1 {
        s.height as int
    } else {
        1
    }
}

/// Crop `a` is strictly narrower for its height than crop `b`:
/// `a.width / denom(a) < b.width / denom(b)`, compared exactly.
pub open spec fn wh_lt(a: Size, b: Size) -> bool {
    a.width * denom(b) < b.width * denom(a)
}

/// Crop `a` goes before crop `b`: a smaller aspect ratio, or the same ratio
/// and a smaller index.
pub open spec fn aspect_before(sizes: Seq<Size>, a: usize, b: usize) -> bool {
    wh_lt(sizes[a as int], sizes[b as int]) || (!wh_lt(sizes[b as int], sizes[a as int]) && a < b)
}

/// `m` occurs in `order`.
pub open spec fn occurs(order: Seq<usize>, m: int) -> bool {
    exists|j: int| 0 <= j < order.len() && #[trigger] order[j] == m
}

/// `order` lists each index of `sizes` once, by increasing aspect ratio,
/// crops of equal ratio in index order.
pub open spec fn is_aspect_order(sizes: Seq<Size>, order: Seq<usize>) -> bool {
    &&& order.len() == sizes.len()
    &&& forall|j: int| 0 <= j < order.len() ==> #[trigger] order[j] < sizes.len()
    &&& forall|j: int, k: int|
        0 <= j < k < order.len() ==> aspect_before(sizes, #[trigger] order[j], #[trigger] order[k])
    &&& forall|m: int| 0 <= m < sizes.len() ==> #[trigger] occurs(order, m)
}

/// Sizes of images: no negative side.
pub open spec fn sizes_nonneg(sizes: Seq<Size>) -> bool {
    forall|i: int| 0 <= i < sizes.len() ==> #[trigger] sizes[i].width >= 0 && sizes[i].height >= 0
}

proof fn lemma_lt_le_trans(a: Size, b: Size, c: Size)
    requires
        a.width >= 0,
        b.width >= 0,
        c.width >= 0,
        wh_lt(a, b),
        !wh_lt(c, b),
    ensures
        wh_lt(a, c),
{
    let (ha, hb, hc) = (denom(a), denom(b), denom(c));
    let (wa, wb, wc) = (a.width as int, b.width as int, c.width as int);
    assert(wa * hb * hc < wb * ha * hc) by (nonlinear_arith)
        requires
            wa * hb < wb * ha,
            hc >= 1,
    ;
    assert(wb * hc * ha <= wc * hb * ha) by (nonlinear_arith)
        requires
            wb * hc <= wc * hb,
            ha >= 1,
    ;
    assert(wa * hc < wc * ha) by (nonlinear_arith)
        requires
            wa * hb * hc < wb * ha * hc,
            wb * hc * ha <= wc * hb * ha,
            hb >= 1,
    ;
}

/// Whether crop `a` has a strictly smaller aspect ratio than crop `b`.
fn narrower(a: Size, b: Size) -> (r: bool)
    requires
        a.width >= 0,
        a.height >= 0,
        b.width >= 0,
        b.height >= 0,
    ensures
        r == wh_lt(a, b),
{
    let ha: u64 = if a.height >= 1 {
        a.height as u64
    } else {
        1
    };
    let hb: u64 = if b.height >= 1 {
        b.height as u64
    } else {
        1
    };
    assert((a.width as int) * (hb as int) <= 0x7fff_ffff * 0x7fff_ffff) by (nonlinear_arith)
        requires
            0 <= a.width <= 0x7fff_ffff,
            1 <= hb <= 0x7fff_ffff,
    ;
    assert((b.width as int) * (ha as int) <= 0x7fff_ffff * 0x7fff_ffff) by (nonlinear_arith)
        requires
            0 <= b.width <= 0x7fff_ffff,
            1 <= ha <= 0x7fff_ffff,
    ;
    (a.width as u64) * hb < (b.width as u64) * ha
}

/// The order in which crops of the given sizes go to the recogniser:
/// by increasing width-to-height ratio (a height of 0 counting as 1), crops
/// of equal ratio in their own order, as a stable sort gives them.
pub fn aspect_order(sizes: &Vec<Size>) -> (r: Vec<usize>)
    requires
        sizes_nonneg(sizes@),
    ensures
        is_aspect_order(sizes@, r@),
{
    let n = sizes.len();
    let mut out: Vec<usize> = Vec::new();
    let mut i: usize = 0;
    while i < n
        invariant
            n == sizes@.len(),
            sizes_nonneg(sizes@),
            i <= n,
            out@.len() == i,
            forall|j: int| 0 <= j < out@.len() ==> #[trigger] out@[j] < i,
            forall|j: int, k: int|
                0 <= j < k < out@.len() ==> aspect_before(sizes@, #[trigger] out@[j], #[trigger] out@[k]),
            forall|m: int| 0 <= m < i ==> #[trigger] occurs(out@, m),
        decreases n - i,
    {
        let s = sizes[i];
        let mut p: usize = 0;
        while p < out.len() && !narrower(s, sizes[out[p]])
            invariant
                n == sizes@.len(),
                sizes_nonneg(sizes@),
                i < n,
                s == sizes@[i as int],
                out@.len() == i,
                p <= out@.len(),
                forall|j: int| 0 <= j < out@.len() ==> #[trigger] out@[j] < i,
                forall|j: int| 0 <= j < p ==> !wh_lt(s, sizes@[#[trigger] out@[j] as int]),
            decreases out@.len() - p,
        {
            p = p + 1;
        }
        let ghost before = out@;
        proof {
            assert forall|j: int| p <= j < before.len() implies wh_lt(
                s,
                sizes@[#[trigger] before[j] as int],
            ) by {
                if j > p {
                    assert(aspect_before(sizes@, before[p as int], before[j]));
                    let (b, c) = (sizes@[before[p as int] as int], sizes@[before[j] as int]);
                    assert(b == sizes@[before[p as int] as int]);
                    lemma_lt_le_trans(s, b, c);
                }
            }
        }
        out.insert(p, i);
        proof {
            assert(out@ == before.insert(p as int, i));
            assert forall|j: int| 0 <= j < out@.len() implies #[trigger] out@[j] < i + 1 by {
                if j < p {
                    assert(out@[j] == before[j]);
                } else if j > p {
                    assert(out@[j] == before[j - 1]);
                }
            }
            assert forall|j: int, k: int|
                0 <= j < k < out@.len() implies aspect_before(sizes@, #[trigger] out@[j], #[trigger] out@[k]) by {
                if k < p {
                    assert(out@[j] == before[j] && out@[k] == before[k]);
                } else if k == p {
                    assert(out@[j] == before[j]);
                } else if j < p {
                    assert(out@[j] == before[j] && out@[k] == before[k - 1]);
                } else if j == p {
                    assert(out@[k] == before[k - 1]);
                } else {
                    assert(out@[j] == before[j - 1] && out@[k] == before[k - 1]);
                }
            }
            assert forall|m: int| 0 <= m < i + 1 implies #[trigger] occurs(out@, m) by {
                if m == i {
                    assert(out@[p as int] == m);
                } else {
                    assert(occurs(before, m));
                    let j0 = choose|j: int| 0 <= j < before.len() && #[trigger] before[j] == m;
                    if j0 < p {
                        assert(out@[j0] == m);
                    } else {
                        assert(out@[j0 + 1] == m);
                    }
                }
            }
        }
        i = i + 1;
    }
    out
}

/// `ranges` cut `0..n` into consecutive batches of `batch_num` positions,
/// the last one possibly shorter.
pub open spec fn is_batching(n: int, batch_num: int, ranges: Seq<(usize, usize)>) -> bool {
    &&& (n == 0 <==> ranges.len() == 0)
    &&& ranges.len() > 0 ==> ranges[0].0 == 0 && ranges.last().1 == n
    &&& forall|k: int| 0 <= k < ranges.len() - 1 ==> #[trigger] ranges[k].1 == ranges[k + 1].0
    &&& forall|k: int|
        0 <= k < ranges.len() ==> {
            &&& #[trigger] ranges[k].0 < ranges[k].1
            &&& ranges[k].1 - ranges[k].0 <= batch_num
            &&& (k < ranges.len() - 1 ==> ranges[k].1 - ranges[k].0 == batch_num)
        }
}

/// The batches `[beg, end)` of positions `0..n` in sorted order: each holds
/// `batch_num` crops, the last one what is left.
pub fn batch_ranges(n: usize, batch_num: usize) -> (r: Vec<(usize, usize)>)
    requires
        batch_num >= 1,
    ensures
        is_batching(n as int, batch_num as int, r@),
{
    let mut ranges: Vec<(usize, usize)> = Vec::new();
    let mut beg: usize = 0;
    while beg < n
        invariant
            batch_num >= 1,
            beg <= n,
            (beg == 0 <==> ranges@.len() == 0),
            ranges@.len() > 0 ==> ranges@[0].0 == 0 && ranges@.last().1 == beg,
            forall|k: int| 0 <= k < ranges@.len() - 1 ==> #[trigger] ranges@[k].1 == ranges@[k + 1].0,
            forall|k: int|
                0 <= k < ranges@.len() ==> {
                    &&& #[trigger] ranges@[k].0 < ranges@[k].1
                    &&& ranges@[k].1 - ranges@[k].0 <= batch_num
                    &&& (k < ranges@.len() - 1 ==> ranges@[k].1 - ranges@[k].0 == batch_num)
                },
            ranges@.len() > 0 && beg < n ==> ranges@.last().1 - ranges@.last().0 == batch_num,
        decreases n - beg,
    {
        let end = if n - beg > batch_num {
            beg + batch_num
        } else {
            n
        };
        let ghost before = ranges@;
        ranges.push((beg, end));
        proof {
            assert forall|k: int| 0 <= k < ranges@.len() - 1 implies #[trigger] ranges@[k].1
                == ranges@[k + 1].0 by {
                if k < before.len() - 1 {
                    assert(ranges@[k] == before[k] && ranges@[k + 1] == before[k + 1]);
                } else {
                    assert(ranges@[k] == before.last());
                }
            }
            assert forall|k: int| 0 <= k < ranges@.len() implies {
                &&& #[trigger] ranges@[k].0 < ranges@[k].1
                &&& ranges@[k].1 - ranges@[k].0 <= batch_num
                &&& (k < ranges@.len() - 1 ==> ranges@[k].1 - ranges@[k].0 == batch_num)
            } by {
                if k < before.len() {
                    assert(ranges@[k] == before[k]);
                }
            }
        }
        beg = end;
    }
    ranges
}

/// Batch `r` holds position `j`.
pub open spec fn holds_pos(r: (usize, usize), j: int) -> bool {
    r.0 <= j < r.1
}

/// Some batch holds position `j`.
pub open spec fn in_some_batch(ranges: Seq<(usize, usize)>, j: int) -> bool {
    exists|k: int| 0 <= k < ranges.len() && #[trigger] holds_pos(ranges[k], j)
}

/// Every crop is recognised exactly once: under an aspect order and a
/// batching of its positions, each crop index stands at exactly one position
/// of the order, and that position lies in exactly one batch. Writing each
/// batch's results back through the order thus fills every crop's slot once.
pub proof fn lemma_each_crop_in_one_batch(
    sizes: Seq<Size>,
    order: Seq<usize>,
    batch_num: int,
    ranges: Seq<(usize, usize)>,
    m: int,
)
    requires
        is_aspect_order(sizes, order),
        is_batching(sizes.len() as int, batch_num, ranges),
        0 <= m < sizes.len(),
    ensures
        exists|j: int| 0 <= j < order.len() && #[trigger] order[j] == m,
        forall|j1: int, j2: int|
            0 <= j1 < order.len() && 0 <= j2 < order.len() && #[trigger] order[j1] == m
                && #[trigger] order[j2] == m ==> j1 == j2,
        forall|j: int| 0 <= j < order.len() ==> #[trigger] in_some_batch(ranges, j),
        forall|j: int, k1: int, k2: int|
            0 <= k1 < ranges.len() && 0 <= k2 < ranges.len() && #[trigger] holds_pos(ranges[k1], j)
                && #[trigger] holds_pos(ranges[k2], j) ==> k1 == k2,
{
    assert(occurs(order, m));
    assert forall|j1: int, j2: int|
        0 <= j1 < order.len() && 0 <= j2 < order.len() && #[trigger] order[j1] == m
            && #[trigger] order[j2] == m implies j1 == j2 by {
        if j1 < j2 {
            assert(aspect_before(sizes, order[j1], order[j2]));
        } else if j2 < j1 {
            assert(aspect_before(sizes, order[j2], order[j1]));
        }
    }
    lemma_batches_increase(sizes.len() as int, batch_num, ranges);
    assert forall|j: int| 0 <= j < order.len() implies #[trigger] in_some_batch(ranges, j) by {
        lemma_batch_of(sizes.len() as int, batch_num, ranges, j, ranges.len() as int);
        let k = choose|k: int| 0 <= k < ranges.len() && #[trigger] ranges[k].0 <= j < ranges[k].1;
        assert(holds_pos(ranges[k], j));
    }
    assert forall|j: int, k1: int, k2: int|
        0 <= k1 < ranges.len() && 0 <= k2 < ranges.len() && #[trigger] holds_pos(ranges[k1], j)
            && #[trigger] holds_pos(ranges[k2], j) implies k1 == k2 by {
        if k1 < k2 {
            assert(ranges[k1].1 <= ranges[k2].0);
        } else if k2 < k1 {
            assert(ranges[k2].1 <= ranges[k1].0);
        }
    }
}

/// Later batches start no earlier than earlier ones end.
proof fn lemma_batches_increase(n: int, batch_num: int, ranges: Seq<(usize, usize)>)
    requires
        is_batching(n, batch_num, ranges),
    ensures
        forall|k1: int, k2: int|
            0 <= k1 < k2 < ranges.len() ==> #[trigger] ranges[k1].1 <= #[trigger] ranges[k2].0,
{
    assert forall|k1: int, k2: int| 0 <= k1 < k2 < ranges.len() implies #[trigger] ranges[k1].1
        <= #[trigger] ranges[k2].0 by {
        lemma_batches_increase_from(n, batch_num, ranges, k1, k2);
    }
}

proof fn lemma_batches_increase_from(n: int, batch_num: int, ranges: Seq<(usize, usize)>, k1: int, k2: int)
    requires
        is_batching(n, batch_num, ranges),
        0 <= k1 < k2 < ranges.len(),
    ensures
        ranges[k1].1 <= ranges[k2].0,
    decreases k2 - k1,
{
    assert(ranges[k2 - 1].1 == ranges[k2].0);
    if k1 < k2 - 1 {
        lemma_batches_increase_from(n, batch_num, ranges, k1, k2 - 1);
        assert(ranges[k2 - 1].0 < ranges[k2 - 1].1);
    }
}

/// A position below the end of batch `t - 1` lies in one of the first `t`
/// batches.
proof fn lemma_batch_of(n: int, batch_num: int, ranges: Seq<(usize, usize)>, j: int, t: int)
    requires
        is_batching(n, batch_num, ranges),
        0 < t <= ranges.len(),
        0 <= j < ranges[t - 1].1,
    ensures
        exists|k: int| 0 <= k < t && #[trigger] ranges[k].0 <= j < ranges[k].1,
    decreases t,
{
    if j >= ranges[t - 1].0 {
        assert(ranges[t - 1].0 <= j < ranges[t - 1].1);
    } else {
        assert(t - 1 > 0);
        assert(ranges[t - 2].1 == ranges[t - 1].0);
        lemma_batch_of(n, batch_num, ranges, j, t - 1);
        let k = choose|k: int| 0 <= k < t - 1 && #[trigger] ranges[k].0 <= j < ranges[k].1;
        assert(0 <= k < t && ranges[k].0 <= j < ranges[k].1);
    }
}

} // verus!

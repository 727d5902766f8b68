//! Connected-component labelling of a binary mask, by flood fill with an
//! explicit stack.
use vstd::prelude::*;

use crate::raster::{cell, lemma_cell_bounds, lemma_cell_injective, GrayMask, MAX_SIDE};

verus! {

/// One label per pixel, row by row: 0 for the background, `l >= 1` for the
/// pixels of the `l`-th component found in raster order.
#[derive(Debug, Clone)]
pub struct LabelMap {
    pub width: u32,
    pub height: u32,
    pub labels: Vec<u32>,
}

impl LabelMap {
    pub open spec fn wf(&self) -> bool {
        &&& self.width <= MAX_SIDE
        &&& self.height <= MAX_SIDE
        &&& self.width * self.height <= usize::MAX
        &&& self.labels@.len() == self.width * self.height
    }

    pub open spec fn in_bounds(&self, x: int, y: int) -> bool {
        0 <= x < self.width && 0 <= y < self.height
    }

    /// Label at `(x, y)`, and 0 outside the map.
    pub open spec fn lab(&self, x: int, y: int) -> u32 {
        if self.in_bounds(x, y) {
            self.labels@[cell(self.width as int, x, y)]
        } else {
            0
        }
    }

    /// A map of the given size with every pixel unlabelled.
    pub fn new(width: u32, height: u32) -> (r: Self)
        requires
            width <= MAX_SIDE,
            height <= MAX_SIDE,
            width * height <= usize::MAX,
        ensures
            r.wf(),
            r.width == width,
            r.height == height,
            forall|x: int, y: int| #[trigger] r.lab(x, y) == 0,
    {
        let n: usize = (width as usize) * (height as usize);
        let labels = vec![0u32; n];
        let r = LabelMap { width, height, labels };
        assert forall|x: int, y: int| #[trigger] r.lab(x, y) == 0 by {
            if r.in_bounds(x, y) {
                lemma_cell_bounds(width as int, height as int, x, y);
            }
        }
        r
    }

    /// Label at `(x, y)`, which must lie inside the map.
    pub fn get(&self, x: i32, y: i32) -> (r: u32)
        requires
            self.wf(),
            self.in_bounds(x as int, y as int),
        ensures
            r == self.lab(x as int, y as int),
    {
        proof {
            lemma_cell_bounds(self.width as int, self.height as int, x as int, y as int);
        }
        self.labels[(y as usize) * (self.width as usize) + (x as usize)]
    }

    /// Sets the label at `(x, y)`; every other label is kept.
    pub fn set(&mut self, x: i32, y: i32, v: u32)
        requires
            old(self).wf(),
            old(self).in_bounds(x as int, y as int),
        ensures
            final(self).wf(),
            final(self).width == old(self).width,
            final(self).height == old(self).height,
            final(self).lab(x as int, y as int) == v,
            final(self).labels@ == old(self).labels@.update(
                cell(old(self).width as int, x as int, y as int),
                v,
            ),
            forall|i: int, j: int|
                (i != x || j != y) ==> #[trigger] final(self).lab(i, j) == old(self).lab(i, j),
    {
        proof {
            lemma_cell_bounds(self.width as int, self.height as int, x as int, y as int);
        }
        let idx = (y as usize) * (self.width as usize) + (x as usize);
        self.labels.set(idx, v);
        proof {
            assert forall|i: int, j: int|
                (i != x || j != y) implies #[trigger] self.lab(i, j) == old(self).lab(i, j) by {
                if self.in_bounds(i, j) {
                    lemma_cell_bounds(self.width as int, self.height as int, i, j);
                    if cell(self.width as int, i, j) == idx as int {
                        lemma_cell_injective(self.width as int, i, j, x as int, y as int);
                    }
                }
            }
        }
    }
}

/// Number of zero entries.
pub open spec fn count_zero(s: Seq<u32>) -> nat
    decreases s.len(),
{
    if s.len() == 0 {
        0
    } else {
        count_zero(s.drop_last()) + if s.last() == 0 {
            1nat
        } else {
            0nat
        }
    }
}

/// Turning a zero entry into a nonzero one removes one zero.
pub proof fn lemma_count_zero_update(s: Seq<u32>, i: int, v: u32)
    requires
        0 <= i < s.len(),
        s[i] == 0,
        v != 0,
    ensures
        count_zero(s.update(i, v)) + 1 == count_zero(s),
    decreases s.len(),
{
    let t = s.update(i, v);
    if i == s.len() - 1 {
        assert(t.drop_last() =~= s.drop_last());
    } else {
        lemma_count_zero_update(s.drop_last(), i, v);
        assert(t.drop_last() =~= s.drop_last().update(i, v));
    }
}

/// `a` and `b` are 4-neighbours.
pub open spec fn adj4(a: (int, int), b: (int, int)) -> bool {
    ||| a.0 == b.0 && (a.1 == b.1 + 1 || b.1 == a.1 + 1)
    ||| a.1 == b.1 && (a.0 == b.0 + 1 || b.0 == a.0 + 1)
}

/// A walk through foreground pixels, each step to a 4-neighbour.
pub open spec fn is_fg_path(img: GrayMask, path: Seq<(int, int)>) -> bool {
    &&& path.len() > 0
    &&& forall|i: int| 0 <= i < path.len() ==> #[trigger] img.is_fg(path[i].0, path[i].1)
    &&& forall|i: int| 0 <= i < path.len() - 1 ==> #[trigger] adj4(path[i], path[i + 1])
}

/// Some foreground walk leads from `a` to `b`.
pub open spec fn connected(img: GrayMask, a: (int, int), b: (int, int)) -> bool {
    exists|path: Seq<(int, int)>|
        #[trigger] is_fg_path(img, path) && path[0] == a && path.last() == b
}

/// `a` comes strictly before `b` when the raster is read row by row.
pub open spec fn raster_lt(a: (int, int), b: (int, int)) -> bool {
    a.1 < b.1 || (a.1 == b.1 && a.0 < b.0)
}

pub proof fn lemma_connected_self(img: GrayMask, a: (int, int))
    requires
        img.is_fg(a.0, a.1),
    ensures
        connected(img, a, a),
{
    let path = seq![a];
    assert(is_fg_path(img, path));
}

pub proof fn lemma_connected_step(img: GrayMask, a: (int, int), b: (int, int), c: (int, int))
    requires
        connected(img, a, b),
        adj4(b, c),
        img.is_fg(c.0, c.1),
    ensures
        connected(img, a, c),
{
    let path = choose|path: Seq<(int, int)>|
        #[trigger] is_fg_path(img, path) && path[0] == a && path.last() == b;
    let p2 = path.push(c);
    assert forall|i: int| 0 <= i < p2.len() implies #[trigger] img.is_fg(p2[i].0, p2[i].1) by {
        if i < path.len() {
            assert(p2[i] == path[i]);
        }
    }
    assert forall|i: int| 0 <= i < p2.len() - 1 implies #[trigger] adj4(p2[i], p2[i + 1]) by {
        if i < path.len() - 1 {
            assert(p2[i] == path[i] && p2[i + 1] == path[i + 1]);
            assert(adj4(path[i], path[i + 1]));
        }
    }
    assert(is_fg_path(img, p2));
}

/// The stack holds the pixel `(x, y)`.
pub open spec fn stack_has(stack: Seq<(i32, i32)>, x: int, y: int) -> bool {
    exists|k: int| 0 <= k < stack.len() && #[trigger] stack[k] == (x as i32, y as i32)
}

/// Nothing is left to do at `(x, y)`: it waits on the stack, is not
/// foreground, or already carries a label.
pub open spec fn settled(
    img: GrayMask,
    lm: LabelMap,
    stack: Seq<(i32, i32)>,
    x: int,
    y: int,
) -> bool {
    ||| stack_has(stack, x, y) && i32::MIN <= x <= i32::MAX && i32::MIN <= y <= i32::MAX
    ||| !img.is_fg(x, y)
    ||| lm.lab(x, y) != 0
}

/// The four neighbours of `(x, y)` are settled.
pub open spec fn around_settled(
    img: GrayMask,
    lm: LabelMap,
    stack: Seq<(i32, i32)>,
    x: int,
    y: int,
) -> bool {
    &&& settled(img, lm, stack, x + 1, y)
    &&& settled(img, lm, stack, x - 1, y)
    &&& settled(img, lm, stack, x, y + 1)
    &&& settled(img, lm, stack, x, y - 1)
}

/// A stack entry is the seed or a neighbour of a pixel with label `l`.
pub open spec fn grows_from(lm: LabelMap, l: u32, seed: (int, int), e: (i32, i32)) -> bool {
    ||| (e.0 as int, e.1 as int) == seed
    ||| lm.lab(e.0 + 1, e.1 as int) == l
    ||| lm.lab(e.0 - 1, e.1 as int) == l
    ||| lm.lab(e.0 as int, e.1 + 1) == l
    ||| lm.lab(e.0 as int, e.1 - 1) == l
}

proof fn lemma_settled_after_pop(
    img: GrayMask,
    lm: LabelMap,
    old_stack: Seq<(i32, i32)>,
    new_stack: Seq<(i32, i32)>,
    e: (i32, i32),
    x: int,
    y: int,
)
    requires
        old_stack.len() > 0,
        e == old_stack.last(),
        new_stack.len() >= old_stack.len() - 1,
        forall|k: int| 0 <= k < old_stack.len() - 1 ==> new_stack[k] == old_stack[k],
        settled(img, lm, old_stack, x, y),
        (x, y) == (e.0 as int, e.1 as int) ==> (!img.is_fg(x, y) || lm.lab(x, y) != 0),
    ensures
        settled(img, lm, new_stack, x, y),
{
    if stack_has(old_stack, x, y) && i32::MIN <= x <= i32::MAX && i32::MIN <= y <= i32::MAX
        && img.is_fg(x, y) && lm.lab(x, y) == 0 {
        let k = choose|k: int| 0 <= k < old_stack.len() && #[trigger] old_stack[k] == (x as i32, y as i32);
        if k == old_stack.len() - 1 {
            assert((x, y) == (e.0 as int, e.1 as int));
        } else {
            assert(new_stack[k] == old_stack[k]);
        }
    }
}

/// Gives label `label` to every foreground pixel that a 4-connected walk of
/// unlabelled foreground pixels reaches from `(start_x, start_y)`.
fn flood_fill_label(
    img: &GrayMask,
    labels: &mut LabelMap,
    start_x: i32,
    start_y: i32,
    label: u32,
)
    requires
        img.wf(),
        old(labels).wf(),
        old(labels).width == img.width,
        old(labels).height == img.height,
        label >= 1,
        img.is_fg(start_x as int, start_y as int),
        old(labels).lab(start_x as int, start_y as int) == 0,
        forall|x: int, y: int| #[trigger] old(labels).lab(x, y) != label,
        forall|x: int, y: int|
            img.is_fg(x, y) && raster_lt((x, y), (start_x as int, start_y as int))
                ==> #[trigger] old(labels).lab(x, y) != 0,
    ensures
        final(labels).wf(),
        final(labels).width == img.width,
        final(labels).height == img.height,
        final(labels).lab(start_x as int, start_y as int) == label,
        forall|x: int, y: int|
            #![trigger final(labels).lab(x, y)]
            old(labels).lab(x, y) != 0 ==> final(labels).lab(x, y) == old(labels).lab(x, y),
        forall|x: int, y: int|
            #![trigger final(labels).lab(x, y)]
            final(labels).lab(x, y) != old(labels).lab(x, y) ==> old(labels).lab(x, y) == 0
                && final(labels).lab(x, y) == label,
        forall|x: int, y: int|
            #![trigger final(labels).lab(x, y)]
            final(labels).lab(x, y) == label ==> img.is_fg(x, y) && connected(
                *img,
                (start_x as int, start_y as int),
                (x, y),
            ) && !raster_lt((x, y), (start_x as int, start_y as int)),
        forall|x: int, y: int|
            #![trigger final(labels).lab(x, y)]
            final(labels).lab(x, y) == label ==> {
                &&& (img.is_fg(x + 1, y) ==> final(labels).lab(x + 1, y) != 0)
                &&& (img.is_fg(x - 1, y) ==> final(labels).lab(x - 1, y) != 0)
                &&& (img.is_fg(x, y + 1) ==> final(labels).lab(x, y + 1) != 0)
                &&& (img.is_fg(x, y - 1) ==> final(labels).lab(x, y - 1) != 0)
            },
{
    let ghost seed = (start_x as int, start_y as int);
    let ghost orig = *labels;
    let width = img.width as i32;
    let height = img.height as i32;
    let mut stack: Vec<(i32, i32)> = Vec::new();
    stack.push((start_x, start_y));
    assert(stack@[0] == (start_x, start_y));
    while stack.len() > 0
        invariant
            img.wf(),
            labels.wf(),
            labels.width == img.width,
            labels.height == img.height,
            width == img.width,
            height == img.height,
            orig.width == img.width,
            orig.height == img.height,
            label >= 1,
            seed == (start_x as int, start_y as int),
            img.is_fg(seed.0, seed.1),
            orig.lab(seed.0, seed.1) == 0,
            forall|x: int, y: int|
                img.is_fg(x, y) && raster_lt((x, y), seed) ==> #[trigger] orig.lab(x, y) != 0,
            forall|x: int, y: int|
                #![trigger labels.lab(x, y)]
                orig.lab(x, y) != 0 ==> labels.lab(x, y) == orig.lab(x, y),
            forall|x: int, y: int|
                #![trigger labels.lab(x, y)]
                labels.lab(x, y) != orig.lab(x, y) ==> orig.lab(x, y) == 0 && labels.lab(x, y)
                    == label,
            forall|x: int, y: int| #[trigger] orig.lab(x, y) != label,
            labels.lab(seed.0, seed.1) == label || stack_has(stack@, seed.0, seed.1),
            forall|x: int, y: int|
                #![trigger labels.lab(x, y)]
                labels.lab(x, y) == label ==> img.is_fg(x, y) && connected(*img, seed, (x, y))
                    && !raster_lt((x, y), seed),
            forall|x: int, y: int|
                #![trigger labels.lab(x, y)]
                labels.lab(x, y) == label ==> around_settled(*img, *labels, stack@, x, y),
            forall|k: int|
                0 <= k < stack@.len() ==> #[trigger] grows_from(*labels, label, seed, stack@[k]),
        decreases count_zero(labels.labels@), stack.len(),
    {
        let ghost before = *labels;
        let ghost old_stack = stack@;
        let (x, y) = stack.pop().unwrap();
        assert(old_stack.last() == (x, y));
        assert(forall|k: int| 0 <= k < old_stack.len() - 1 ==> stack@[k] == old_stack[k]);
        if x < 0 || x >= width || y < 0 || y >= height {
            proof {
                assert forall|i: int, j: int|
                    #![trigger labels.lab(i, j)]
                    labels.lab(i, j) == label implies around_settled(
                    *img,
                    *labels,
                    stack@,
                    i,
                    j,
                ) by {
                    lemma_settled_after_pop(*img, *labels, old_stack, stack@, (x, y), i + 1, j);
                    lemma_settled_after_pop(*img, *labels, old_stack, stack@, (x, y), i - 1, j);
                    lemma_settled_after_pop(*img, *labels, old_stack, stack@, (x, y), i, j + 1);
                    lemma_settled_after_pop(*img, *labels, old_stack, stack@, (x, y), i, j - 1);
                }
                assert forall|k: int| 0 <= k < stack@.len() implies #[trigger] grows_from(
                    *labels,
                    label,
                    seed,
                    stack@[k],
                ) by {
                    assert(stack@[k] == old_stack[k]);
                }
            }
            continue;
        }
        if labels.get(x, y) != 0 || img.get_pixel(x as u32, y as u32) <= 127 {
            proof {
                assert forall|i: int, j: int|
                    #![trigger labels.lab(i, j)]
                    labels.lab(i, j) == label implies around_settled(
                    *img,
                    *labels,
                    stack@,
                    i,
                    j,
                ) by {
                    lemma_settled_after_pop(*img, *labels, old_stack, stack@, (x, y), i + 1, j);
                    lemma_settled_after_pop(*img, *labels, old_stack, stack@, (x, y), i - 1, j);
                    lemma_settled_after_pop(*img, *labels, old_stack, stack@, (x, y), i, j + 1);
                    lemma_settled_after_pop(*img, *labels, old_stack, stack@, (x, y), i, j - 1);
                }
                assert forall|k: int| 0 <= k < stack@.len() implies #[trigger] grows_from(
                    *labels,
                    label,
                    seed,
                    stack@[k],
                ) by {
                    assert(stack@[k] == old_stack[k]);
                }
                if labels.lab(seed.0, seed.1) != label {
                    let k = choose|k: int|
                        0 <= k < old_stack.len() && #[trigger] old_stack[k] == (
                        seed.0 as i32,
                        seed.1 as i32,
                    );
                    if k == old_stack.len() - 1 {
                        assert(labels.lab(seed.0, seed.1) == orig.lab(seed.0, seed.1));
                    } else {
                        assert(stack@[k] == old_stack[k]);
                    }
                }
            }
            continue;
        }
        labels.set(x, y, label);
        proof {
            lemma_cell_bounds(img.width as int, img.height as int, x as int, y as int);
            lemma_count_zero_update(before.labels@, cell(img.width as int, x as int, y as int), label);
            let e = (x as int, y as int);
            assert(grows_from(before, label, seed, old_stack.last()));
            if e != seed {
                if before.lab(x + 1, y as int) == label {
                    lemma_connected_step(*img, seed, (x + 1, y as int), e);
                } else if before.lab(x - 1, y as int) == label {
                    lemma_connected_step(*img, seed, (x - 1, y as int), e);
                } else if before.lab(x as int, y + 1) == label {
                    lemma_connected_step(*img, seed, (x as int, y + 1), e);
                } else {
                    lemma_connected_step(*img, seed, (x as int, y - 1), e);
                }
            } else {
                lemma_connected_self(*img, seed);
            }
            if raster_lt(e, seed) {
                assert(orig.lab(e.0, e.1) != 0);
            }
        }
        let ghost mid_stack = stack@;
        stack.push((x + 1, y));
        stack.push((x - 1, y));
        stack.push((x, y + 1));
        stack.push((x, y - 1));
        proof {
            let n = mid_stack.len() as int;
            assert(stack@[n] == ((x + 1) as i32, y));
            assert(stack@[n + 1] == ((x - 1) as i32, y));
            assert(stack@[n + 2] == (x, (y + 1) as i32));
            assert(stack@[n + 3] == (x, (y - 1) as i32));
            assert forall|k: int| 0 <= k < mid_stack.len() implies stack@[k] == old_stack[k] by {
                assert(stack@[k] == mid_stack[k]);
            }
            assert forall|i: int, j: int|
                #![trigger labels.lab(i, j)]
                labels.lab(i, j) == label implies around_settled(
                *img,
                *labels,
                stack@,
                i,
                j,
            ) by {
                if i == x && j == y {
                    assert(stack_has(stack@, i + 1, j));
                    assert(stack_has(stack@, i - 1, j));
                    assert(stack_has(stack@, i, j + 1));
                    assert(stack_has(stack@, i, j - 1));
                } else {
                    assert(before.lab(i, j) == label);
                    assert(around_settled(*img, before, old_stack, i, j));
                    assert(settled(*img, *labels, old_stack, i + 1, j));
                    assert(settled(*img, *labels, old_stack, i - 1, j));
                    assert(settled(*img, *labels, old_stack, i, j + 1));
                    assert(settled(*img, *labels, old_stack, i, j - 1));
                    lemma_settled_after_pop(*img, *labels, old_stack, stack@, (x, y), i + 1, j);
                    lemma_settled_after_pop(*img, *labels, old_stack, stack@, (x, y), i - 1, j);
                    lemma_settled_after_pop(*img, *labels, old_stack, stack@, (x, y), i, j + 1);
                    lemma_settled_after_pop(*img, *labels, old_stack, stack@, (x, y), i, j - 1);
                }
            }
            assert forall|k: int| 0 <= k < stack@.len() implies #[trigger] grows_from(
                *labels,
                label,
                seed,
                stack@[k],
            ) by {
                if k < mid_stack.len() {
                    assert(stack@[k] == old_stack[k]);
                    assert(grows_from(before, label, seed, old_stack[k]));
                }
            }
        }
    }
    proof {
        assert forall|i: int, j: int|
            #![trigger labels.lab(i, j)]
            labels.lab(i, j) == label implies {
                &&& (img.is_fg(i + 1, j) ==> labels.lab(i + 1, j) != 0)
                &&& (img.is_fg(i - 1, j) ==> labels.lab(i - 1, j) != 0)
                &&& (img.is_fg(i, j + 1) ==> labels.lab(i, j + 1) != 0)
                &&& (img.is_fg(i, j - 1) ==> labels.lab(i, j - 1) != 0)
            } by {
            assert(around_settled(*img, *labels, stack@, i, j));
        }
    }
}

/// Every pixel with a label has a foreground pixel and every foreground pixel
/// has a label; 4-neighbours in the foreground share their label.
pub open spec fn labels_cover_components(img: GrayMask, lm: LabelMap) -> bool {
    &&& forall|x: int, y: int| #[trigger] lm.lab(x, y) != 0 <==> img.is_fg(x, y)
    &&& forall|x: int, y: int|
        #[trigger] lm.lab(x, y) != 0 ==> {
            &&& (img.is_fg(x + 1, y) ==> lm.lab(x + 1, y) == lm.lab(x, y))
            &&& (img.is_fg(x - 1, y) ==> lm.lab(x - 1, y) == lm.lab(x, y))
            &&& (img.is_fg(x, y + 1) ==> lm.lab(x, y + 1) == lm.lab(x, y))
            &&& (img.is_fg(x, y - 1) ==> lm.lab(x, y - 1) == lm.lab(x, y))
        }
}

/// `seeds[l - 1]` carries label `l`, reaches every pixel of label `l` by a
/// foreground walk, and comes first among them in raster order; no label
/// exceeds the number of seeds.
pub open spec fn seeds_describe(img: GrayMask, lm: LabelMap, seeds: Seq<(i32, i32)>) -> bool {
    &&& forall|x: int, y: int| #[trigger] lm.lab(x, y) <= seeds.len()
    &&& forall|l: int|
        0 <= l < seeds.len() ==> #[trigger] lm.lab(seeds[l].0 as int, seeds[l].1 as int) == l + 1
    &&& forall|l: int, x: int, y: int|
        0 <= l < seeds.len() && #[trigger] lm.lab(x, y) == l + 1 ==> {
            let s = (#[trigger] seeds[l].0 as int, seeds[l].1 as int);
            connected(img, s, (x, y)) && !raster_lt((x, y), s)
        }
}

/// Labels the 4-connected foreground components of `img` (pixels brighter
/// than 127) in the order in which a row-by-row scan first meets them.
/// Returns the label map and, for each label, the first pixel of its
/// component in raster order.
pub fn label_components(img: &GrayMask) -> (r: (LabelMap, Vec<(i32, i32)>))
    requires
        img.wf(),
        img.width * img.height < u32::MAX,
    ensures
        r.0.wf(),
        r.0.width == img.width,
        r.0.height == img.height,
        labels_cover_components(*img, r.0),
        seeds_describe(*img, r.0, r.1@),
{
    let (width, height) = img.dimensions();
    let mut lm = LabelMap::new(width, height);
    let mut seeds: Vec<(i32, i32)> = Vec::new();
    let mut y: u32 = 0;
    while y < height
        invariant
            img.wf(),
            img.width * img.height < u32::MAX,
            lm.wf(),
            width == img.width,
            height == img.height,
            lm.width == width,
            lm.height == height,
            y <= height,
            seeds@.len() <= y * width,
            forall|i: int, j: int| #[trigger] lm.lab(i, j) != 0 ==> img.is_fg(i, j),
            forall|i: int, j: int|
                img.is_fg(i, j) && j < y ==> #[trigger] lm.lab(i, j) != 0,
            forall|i: int, j: int|
                #[trigger] lm.lab(i, j) != 0 ==> {
                    &&& (img.is_fg(i + 1, j) ==> lm.lab(i + 1, j) == lm.lab(i, j))
                    &&& (img.is_fg(i - 1, j) ==> lm.lab(i - 1, j) == lm.lab(i, j))
                    &&& (img.is_fg(i, j + 1) ==> lm.lab(i, j + 1) == lm.lab(i, j))
                    &&& (img.is_fg(i, j - 1) ==> lm.lab(i, j - 1) == lm.lab(i, j))
                },
            seeds_describe(*img, lm, seeds@),
        decreases height - y,
    {
        let mut x: u32 = 0;
        while x < width
            invariant
                img.wf(),
                img.width * img.height < u32::MAX,
                lm.wf(),
                width == img.width,
                height == img.height,
                lm.width == width,
                lm.height == height,
                y < height,
                x <= width,
                seeds@.len() <= y * width + x,
                forall|i: int, j: int| #[trigger] lm.lab(i, j) != 0 ==> img.is_fg(i, j),
                forall|i: int, j: int|
                    img.is_fg(i, j) && raster_lt((i, j), (x as int, y as int))
                        ==> #[trigger] lm.lab(i, j) != 0,
                forall|i: int, j: int|
                    #[trigger] lm.lab(i, j) != 0 ==> {
                        &&& (img.is_fg(i + 1, j) ==> lm.lab(i + 1, j) == lm.lab(i, j))
                        &&& (img.is_fg(i - 1, j) ==> lm.lab(i - 1, j) == lm.lab(i, j))
                        &&& (img.is_fg(i, j + 1) ==> lm.lab(i, j + 1) == lm.lab(i, j))
                        &&& (img.is_fg(i, j - 1) ==> lm.lab(i, j - 1) == lm.lab(i, j))
                    },
                seeds_describe(*img, lm, seeds@),
            decreases width - x,
        {
            proof {
                lemma_cell_bounds(width as int, height as int, x as int, y as int);
            }
            if img.get_pixel(x, y) > 127 && lm.get(x as i32, y as i32) == 0 {
                let label: u32 = (seeds.len() + 1) as u32;
                let ghost before = lm;
                let ghost old_seeds = seeds@;
                flood_fill_label(img, &mut lm, x as i32, y as i32, label);
                seeds.push((x as i32, y as i32));
                proof {
                    let n = old_seeds.len() as int;
                    assert(seeds@[n] == (x as i32, y as i32));
                    assert forall|l: int| 0 <= l < n implies #[trigger] seeds@[l] == old_seeds[l] by {}
                    assert forall|i: int, j: int|
                        #[trigger] lm.lab(i, j) != 0 implies {
                            &&& (img.is_fg(i + 1, j) ==> lm.lab(i + 1, j) == lm.lab(i, j))
                            &&& (img.is_fg(i - 1, j) ==> lm.lab(i - 1, j) == lm.lab(i, j))
                            &&& (img.is_fg(i, j + 1) ==> lm.lab(i, j + 1) == lm.lab(i, j))
                            &&& (img.is_fg(i, j - 1) ==> lm.lab(i, j - 1) == lm.lab(i, j))
                        } by {
                        if before.lab(i, j) != 0 {
                            assert(before.lab(i + 1, j) != 0 ==> lm.lab(i + 1, j) == before.lab(i + 1, j));
                            assert(before.lab(i - 1, j) != 0 ==> lm.lab(i - 1, j) == before.lab(i - 1, j));
                            assert(before.lab(i, j + 1) != 0 ==> lm.lab(i, j + 1) == before.lab(i, j + 1));
                            assert(before.lab(i, j - 1) != 0 ==> lm.lab(i, j - 1) == before.lab(i, j - 1));
                        } else {
                            assert(lm.lab(i, j) == label);
                            if img.is_fg(i + 1, j) && lm.lab(i + 1, j) != label {
                                assert(before.lab(i + 1, j) != 0);
                                assert(img.is_fg(i + 1 - 1, j));
                            }
                            if img.is_fg(i - 1, j) && lm.lab(i - 1, j) != label {
                                assert(before.lab(i - 1, j) != 0);
                                assert(img.is_fg(i - 1 + 1, j));
                            }
                            if img.is_fg(i, j + 1) && lm.lab(i, j + 1) != label {
                                assert(before.lab(i, j + 1) != 0);
                                assert(img.is_fg(i, j + 1 - 1));
                            }
                            if img.is_fg(i, j - 1) && lm.lab(i, j - 1) != label {
                                assert(before.lab(i, j - 1) != 0);
                                assert(img.is_fg(i, j - 1 + 1));
                            }
                        }
                    }
                    assert forall|l: int, i: int, j: int|
                        0 <= l < seeds@.len() && #[trigger] lm.lab(i, j) == l + 1 implies {
                            let s = (#[trigger] seeds@[l].0 as int, seeds@[l].1 as int);
                            connected(*img, s, (i, j)) && !raster_lt((i, j), s)
                        } by {
                        if l < n {
                            assert(before.lab(i, j) == l + 1);
                            assert(seeds@[l] == old_seeds[l]);
                        }
                    }
                    assert forall|l: int|
                        0 <= l < seeds@.len() implies #[trigger] lm.lab(
                        seeds@[l].0 as int,
                        seeds@[l].1 as int,
                    ) == l + 1 by {
                        if l < n {
                            assert(seeds@[l] == old_seeds[l]);
                            assert(before.lab(old_seeds[l].0 as int, old_seeds[l].1 as int) == l + 1);
                        }
                    }
                }
            }
            x = x + 1;
        }
        proof {
            assert((y + 1) * width == y * width + width) by (nonlinear_arith);
        }
        y = y + 1;
    }
    (lm, seeds)
}

proof fn lemma_adj4_sym(a: (int, int), b: (int, int))
    requires
        adj4(a, b),
    ensures
        adj4(b, a),
{
}

/// A walk read backwards is a walk.
pub proof fn lemma_connected_sym(img: GrayMask, a: (int, int), b: (int, int))
    requires
        connected(img, a, b),
    ensures
        connected(img, b, a),
{
    let path = choose|path: Seq<(int, int)>|
        #[trigger] is_fg_path(img, path) && path[0] == a && path.last() == b;
    let rev = Seq::new(path.len(), |i: int| path[path.len() - 1 - i]);
    assert forall|i: int| 0 <= i < rev.len() implies #[trigger] img.is_fg(rev[i].0, rev[i].1) by {
        let k = path.len() - 1 - i;
        assert(img.is_fg(path[k].0, path[k].1));
    }
    assert forall|i: int| 0 <= i < rev.len() - 1 implies #[trigger] adj4(rev[i], rev[i + 1]) by {
        let k = path.len() - 2 - i;
        assert(adj4(path[k], path[k + 1]));
        lemma_adj4_sym(path[k], path[k + 1]);
    }
    assert(is_fg_path(img, rev));
    assert(rev[0] == b && rev.last() == a);
}

/// Walks from `a` to `b` and from `b` to `c` join into one from `a` to `c`.
pub proof fn lemma_connected_trans(img: GrayMask, a: (int, int), b: (int, int), c: (int, int))
    requires
        connected(img, a, b),
        connected(img, b, c),
    ensures
        connected(img, a, c),
{
    let p = choose|path: Seq<(int, int)>|
        #[trigger] is_fg_path(img, path) && path[0] == a && path.last() == b;
    let q = choose|path: Seq<(int, int)>|
        #[trigger] is_fg_path(img, path) && path[0] == b && path.last() == c;
    let r = p + q.drop_first();
    assert forall|i: int| 0 <= i < r.len() implies #[trigger] img.is_fg(r[i].0, r[i].1) by {
        if i < p.len() {
            assert(r[i] == p[i]);
        } else {
            assert(r[i] == q[i - p.len() + 1]);
        }
    }
    assert forall|i: int| 0 <= i < r.len() - 1 implies #[trigger] adj4(r[i], r[i + 1]) by {
        if i < p.len() - 1 {
            assert(r[i] == p[i] && r[i + 1] == p[i + 1]);
        } else if i == p.len() - 1 {
            assert(r[i] == b && r[i + 1] == q[1]);
            assert(adj4(q[0], q[1]));
        } else {
            let k = i - p.len() + 1;
            assert(r[i] == q[k] && r[i + 1] == q[k + 1]);
            assert(adj4(q[k], q[k + 1]));
        }
    }
    if q.len() == 1 {
        assert(r.last() == p.last());
    } else {
        assert(r.last() == q.last());
    }
    assert(is_fg_path(img, r));
}

proof fn lemma_label_along_path(img: GrayMask, lm: LabelMap, path: Seq<(int, int)>, i: int)
    requires
        labels_cover_components(img, lm),
        is_fg_path(img, path),
        0 <= i < path.len(),
    ensures
        lm.lab(path[i].0, path[i].1) == lm.lab(path[0].0, path[0].1),
    decreases i,
{
    if i > 0 {
        lemma_label_along_path(img, lm, path, i - 1);
        let (p, q) = (path[i - 1], path[i]);
        let k = i - 1;
        assert(adj4(path[k], path[k + 1]));
        assert(path[k + 1] == q);
        assert(img.is_fg(p.0, p.1) && img.is_fg(q.0, q.1));
        assert(lm.lab(p.0, p.1) != 0);
    }
}

/// The labels are the 4-connected components: two foreground pixels carry
/// the same label exactly when a foreground walk joins them.
pub proof fn lemma_labels_are_components(
    img: GrayMask,
    lm: LabelMap,
    seeds: Seq<(i32, i32)>,
    a: (int, int),
    b: (int, int),
)
    requires
        labels_cover_components(img, lm),
        seeds_describe(img, lm, seeds),
        img.is_fg(a.0, a.1),
        img.is_fg(b.0, b.1),
    ensures
        lm.lab(a.0, a.1) == lm.lab(b.0, b.1) <==> connected(img, a, b),
{
    if connected(img, a, b) {
        let path = choose|path: Seq<(int, int)>|
            #[trigger] is_fg_path(img, path) && path[0] == a && path.last() == b;
        lemma_label_along_path(img, lm, path, path.len() - 1);
    }
    if lm.lab(a.0, a.1) == lm.lab(b.0, b.1) {
        let l = lm.lab(a.0, a.1) - 1;
        assert(lm.lab(a.0, a.1) != 0);
        assert(0 <= l < seeds.len());
        let s = (seeds[l].0 as int, seeds[l].1 as int);
        assert(connected(img, s, a));
        assert(connected(img, s, b));
        lemma_connected_sym(img, s, a);
        lemma_connected_trans(img, a, s, b);
    }
}

} // verus!

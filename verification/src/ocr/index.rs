//! A uniform-grid spatial index over OCR word bounding boxes.
//!
//! The index is built in image coordinates and answers "which words intersect
//! this rectangle" without scanning every word.
//!
//! # Contract
//! The index stores buckets of *indices* into one specific word list. Callers
//! must rebuild it whenever that list changes (new OCR result, reordering,
//! moved boxes). Querying with another list is memory-safe and only returns
//! indices of that list that really intersect the query, but may miss words.
use vstd::arithmetic::div_mod::lemma_fundamental_div_mod_converse;
use vstd::prelude::*;

use crate::geometry::Rect;
use crate::ocr::models::OcrWord;

verus! {

/// Side of a grid cell, in pixels, used by [`OcrWordIndex::build`].
pub const DEFAULT_CELL_SIZE: i64 = 256;

/// A cell coordinate clamped into the grid `[0, g)`.
pub open spec fn clamp_cell(v: int, g: int) -> int {
    if v < 0 {
        0
    } else if v >= g {
        g - 1
    } else {
        v
    }
}

/// The grid cell (along one axis) holding coordinate `coord`: `floor(coord / c)`
/// clamped into the grid.
pub open spec fn cell_of(coord: int, c: int, g: int) -> int {
    clamp_cell(coord / c, g)
}

/// Whether a box has positive width and height (and positive units); boxes
/// without area are not indexed.
pub open spec fn has_area(r: Rect) -> bool {
    r.w > 0 && r.h > 0 && r.has_units()
}

/// Whether the grid cell `(cx, cy)` is one of the cells box `r` is filed
/// under: `r` has area and the cell lies between the cells of its two corners.
/// A cell of `c` pixels spans `c * den` units of the box.
pub open spec fn box_in_cell(r: Rect, c: int, gw: int, gh: int, cx: int, cy: int) -> bool {
    &&& has_area(r)
    &&& cell_of(r.x as int, c * r.den_x, gw) <= cx <= cell_of(r.right(), c * r.den_x, gw)
    &&& cell_of(r.y as int, c * r.den_y, gh) <= cy <= cell_of(r.bottom(), c * r.den_y, gh)
}

/// Cells of coordinates compare as the coordinates do, across units: if
/// `a / p <= b / q` then the cell of `a` (cells of `c * p` units) is not after
/// the cell of `b` (cells of `c * q` units).
proof fn lemma_floor_cross(a: int, p: int, b: int, q: int, c: int)
    requires
        p >= 1,
        q >= 1,
        c >= 1,
        a * q <= b * p,
    ensures
        a / (c * p) <= b / (c * q),
{
    let cp = c * p;
    let cq = c * q;
    assert(cp >= 1 && cq >= 1) by (nonlinear_arith)
        requires
            p >= 1,
            q >= 1,
            c >= 1,
            cp == c * p,
            cq == c * q,
    ;
    let u = a / cp;
    let v = b / cq;
    vstd::arithmetic::div_mod::lemma_fundamental_div_mod(a, cp);
    vstd::arithmetic::div_mod::lemma_fundamental_div_mod(b, cq);
    if u > v {
        assert(false) by (nonlinear_arith)
            requires
                a == cp * u + a % cp,
                0 <= a % cp,
                b == cq * v + b % cq,
                b % cq < cq,
                u >= v + 1,
                cp == c * p,
                cq == c * q,
                p >= 1,
                q >= 1,
                c >= 1,
                a * q <= b * p,
        {
            assert(a >= cp * (v + 1));
            assert(b < cq * (v + 1));
            assert(a * q >= c * p * (v + 1) * q);
            assert(b * p < c * q * (v + 1) * p);
        }
    }
}

proof fn lemma_cell_of_monotone_units(a: int, b: int, d: int, c: int, g: int)
    requires
        a <= b,
        d >= 1,
        c >= 1,
        g >= 1,
    ensures
        cell_of(a, c * d, g) <= cell_of(b, c * d, g),
{
    assert(a * d <= b * d) by (nonlinear_arith)
        requires
            a <= b,
            d >= 1,
    ;
    lemma_cell_of_cross(a, d, b, d, c, g);
}

proof fn lemma_cell_of_cross(a: int, p: int, b: int, q: int, c: int, g: int)
    requires
        p >= 1,
        q >= 1,
        c >= 1,
        g >= 1,
        a * q <= b * p,
    ensures
        cell_of(a, c * p, g) <= cell_of(b, c * q, g),
{
    lemma_floor_cross(a, p, b, q, c);
}

/// Number of cells along an axis of length `len`: `ceil(max(len, 1) / c)`.
pub open spec fn grid_len(len: int, c: int) -> int {
    let m = if len < 1 {
        1
    } else {
        len
    };
    (m + c - 1) / c
}

/// The cell size actually used for a requested size: at least one pixel.
pub open spec fn effective_cell_size(c: int) -> int {
    if c < 1 {
        1
    } else {
        c
    }
}

/// Position of cell `(cx, cy)` in the row-major bucket list.
pub open spec fn cell_index(cx: int, cy: int, gw: int) -> int {
    cy * gw + cx
}

pub open spec fn bucket_at(buckets: Seq<Vec<usize>>, gw: int, cx: int, cy: int) -> Seq<usize> {
    buckets[cell_index(cx, cy, gw)]@
}

/// The word indices a query for `rect` over `boxes` must return: those of
/// boxes that have area and intersect `rect`.
pub open spec fn query_answer(boxes: Seq<Rect>, rect: Rect, i: int) -> bool {
    0 <= i < boxes.len() && has_area(boxes[i]) && boxes[i].spec_intersects(rect)
}

proof fn lemma_cell_index_bounds(cx: int, cy: int, gw: int, gh: int)
    requires
        0 <= cx < gw,
        0 <= cy < gh,
    ensures
        0 <= cell_index(cx, cy, gw) < gw * gh,
{
    assert(0 <= cy * gw + cx < gw * gh) by (nonlinear_arith)
        requires
            0 <= cx < gw,
            0 <= cy < gh,
    ;
}

proof fn lemma_cell_index_injective(cx1: int, cy1: int, cx2: int, cy2: int, gw: int)
    requires
        0 <= cx1 < gw,
        0 <= cx2 < gw,
        0 <= cy1,
        0 <= cy2,
        cell_index(cx1, cy1, gw) == cell_index(cx2, cy2, gw),
    ensures
        cx1 == cx2,
        cy1 == cy2,
{
    if cy1 < cy2 {
        assert(cy1 * gw + gw <= cy2 * gw) by (nonlinear_arith)
            requires
                cy1 < cy2,
                gw > 0,
        ;
    } else if cy2 < cy1 {
        assert(cy2 * gw + gw <= cy1 * gw) by (nonlinear_arith)
            requires
                cy2 < cy1,
                gw > 0,
        ;
    }
}

/// `floor(a / c)` for a positive divisor.
fn floor_div(a: i128, c: i128) -> (q: i128)
    requires
        c > 0,
        -0x1_0000_0000_0000_0000_0000 <= a <= 0x1_0000_0000_0000_0000_0000,
        c <= 0x1_0000_0000_0000_0000_0000_0000,
    ensures
        q == a as int / c as int,
{
    if a >= 0 {
        a / c
    } else {
        let p = (-a + c - 1) / c;
        proof {
            let pa: int = -a + c - 1;
            let r: int = pa % (c as int);
            assert(pa == (c as int) * (p as int) + r && 0 <= r < c) by {
                vstd::arithmetic::div_mod::lemma_fundamental_div_mod(pa, c as int);
            }
            let q: int = -(p as int);
            let rr: int = a - q * c;
            assert(rr == c - 1 - r) by (nonlinear_arith)
                requires
                    pa == c * p + r,
                    pa == -a + c - 1,
                    q == -p,
                    rr == a - q * c,
            ;
            lemma_fundamental_div_mod_converse(a as int, c as int, q, rr);
        }
        -p
    }
}

fn clamp_to_grid(v: i128, g: usize) -> (r: usize)
    requires
        g >= 1,
    ensures
        r == clamp_cell(v as int, g as int),
        r < g,
{
    if v < 0 {
        0
    } else if v >= g as i128 {
        g - 1
    } else {
        v as usize
    }
}

/// The cells covered along one axis by `[lo, lo + size]` (in units of
/// `1 / den`), with cells of `c` pixels.
fn axis_span(lo: i64, size: i64, c: i64, den: u32, g: usize) -> (r: (usize, usize))
    requires
        c >= 1,
        den >= 1,
        g >= 1,
    ensures
        r.0 == cell_of(lo as int, c * den, g as int),
        r.1 == cell_of(lo + size, c * den, g as int),
        r.0 < g,
        r.1 < g,
{
    proof {
        assert(1 <= c as int * den as int <= 0x8000_0000_0000_0000 * 0xffff_ffff) by (nonlinear_arith)
            requires
                1 <= c <= 0x8000_0000_0000_0000,
                1 <= den <= 0xffff_ffff,
        ;
    }
    let cd = c as i128 * den as i128;
    let a = floor_div(lo as i128, cd);
    let b = floor_div(lo as i128 + size as i128, cd);
    (clamp_to_grid(a, g), clamp_to_grid(b, g))
}

/// The cells covered by `r` along both axes.
fn cell_range(cell_size: i64, grid_w: usize, grid_h: usize, rect: &Rect) -> (r: Option<
    (usize, usize, usize, usize),
>)
    requires
        cell_size >= 1,
        grid_w >= 1,
        grid_h >= 1,
    ensures
        match r {
            None => rect.w < 0 || rect.h < 0 || !rect.has_units(),
            Some((x0, y0, x1, y1)) => {
                &&& rect.w >= 0 && rect.h >= 0 && rect.has_units()
                &&& x0 == cell_of(rect.x as int, cell_size * rect.den_x, grid_w as int)
                &&& x1 == cell_of(rect.right(), cell_size * rect.den_x, grid_w as int)
                &&& y0 == cell_of(rect.y as int, cell_size * rect.den_y, grid_h as int)
                &&& y1 == cell_of(rect.bottom(), cell_size * rect.den_y, grid_h as int)
                &&& x0 <= x1 < grid_w
                &&& y0 <= y1 < grid_h
            },
        },
{
    // Degenerate rectangles (w == 0 or h == 0) still hit boxes, as
    // `Rect::intersects` allows: a line or point selection.
    if rect.w < 0 || rect.h < 0 || rect.den_x == 0 || rect.den_y == 0 {
        return None;
    }
    let (x0, x1) = axis_span(rect.x, rect.w, cell_size, rect.den_x, grid_w);
    let (y0, y1) = axis_span(rect.y, rect.h, cell_size, rect.den_y, grid_h);
    proof {
        lemma_cell_of_monotone_units(rect.x as int, rect.right(), rect.den_x as int, cell_size as int, grid_w as int);
        lemma_cell_of_monotone_units(rect.y as int, rect.bottom(), rect.den_y as int, cell_size as int, grid_h as int);
    }
    Some((x0, y0, x1, y1))
}

/// Files `word_idx` under every cell its box covers (nothing for a box without
/// area).
fn insert_bbox(
    buckets: &mut Vec<Vec<usize>>,
    grid_w: usize,
    grid_h: usize,
    cell_size: i64,
    word_idx: usize,
    bbox: Rect,
)
    requires
        grid_w >= 1,
        grid_h >= 1,
        cell_size >= 1,
        old(buckets)@.len() == grid_w * grid_h,
    ensures
        final(buckets)@.len() == old(buckets)@.len(),
        forall|cx: int, cy: int|
            0 <= cx < grid_w && 0 <= cy < grid_h ==> #[trigger] bucket_at(
                final(buckets)@,
                grid_w as int,
                cx,
                cy,
            ) == if box_in_cell(bbox, cell_size as int, grid_w as int, grid_h as int, cx, cy) {
                bucket_at(old(buckets)@, grid_w as int, cx, cy).push(word_idx)
            } else {
                bucket_at(old(buckets)@, grid_w as int, cx, cy)
            },
{
    let ghost start = buckets@;
    let ghost gw = grid_w as int;
    let ghost gh = grid_h as int;
    let ghost c = cell_size as int;
    if bbox.w <= 0 || bbox.h <= 0 || bbox.den_x == 0 || bbox.den_y == 0 {
        return;
    }
    let nb = buckets.len();
    let (x0, x1) = axis_span(bbox.x, bbox.w, cell_size, bbox.den_x, grid_w);
    let (y0, y1) = axis_span(bbox.y, bbox.h, cell_size, bbox.den_y, grid_h);
    proof {
        lemma_cell_of_monotone_units(bbox.x as int, bbox.right(), bbox.den_x as int, c, gw);
        lemma_cell_of_monotone_units(bbox.y as int, bbox.bottom(), bbox.den_y as int, c, gh);
    }
    let mut gy: usize = y0;
    while gy <= y1
        invariant
            y0 <= gy <= y1 + 1,
            x0 <= x1 < grid_w,
            y0 <= y1 < grid_h,
            gw == grid_w,
            gh == grid_h,
            buckets@.len() == gw * gh,
            nb == gw * gh,
            x0 == cell_of(bbox.x as int, c * bbox.den_x, gw),
            x1 == cell_of(bbox.right(), c * bbox.den_x, gw),
            y0 == cell_of(bbox.y as int, c * bbox.den_y, gh),
            y1 == cell_of(bbox.bottom(), c * bbox.den_y, gh),
            has_area(bbox),
            forall|cx: int, cy: int|
                0 <= cx < gw && 0 <= cy < gh ==> #[trigger] bucket_at(buckets@, gw, cx, cy) == if x0
                    <= cx <= x1 && y0 <= cy < gy {
                    bucket_at(start, gw, cx, cy).push(word_idx)
                } else {
                    bucket_at(start, gw, cx, cy)
                },
        decreases y1 + 1 - gy,
    {
        let mut gx: usize = x0;
        while gx <= x1
            invariant
                y0 <= gy <= y1,
                x0 <= gx <= x1 + 1,
                x0 <= x1 < grid_w,
                y0 <= y1 < grid_h,
                gw == grid_w,
                gh == grid_h,
                buckets@.len() == gw * gh,
                nb == gw * gh,
                forall|cx: int, cy: int|
                    0 <= cx < gw && 0 <= cy < gh ==> #[trigger] bucket_at(buckets@, gw, cx, cy)
                        == if (x0 <= cx <= x1 && y0 <= cy < gy) || (x0 <= cx < gx && cy == gy) {
                        bucket_at(start, gw, cx, cy).push(word_idx)
                    } else {
                        bucket_at(start, gw, cx, cy)
                    },
            decreases x1 + 1 - gx,
        {
            proof {
                lemma_cell_index_bounds(gx as int, gy as int, gw, gh);
            }
            let bucket_idx = gy * grid_w + gx;
            let ghost before = buckets@;
            buckets[bucket_idx].push(word_idx);
            proof {
                assert forall|cx: int, cy: int|
                    0 <= cx < gw && 0 <= cy < gh implies #[trigger] bucket_at(buckets@, gw, cx, cy)
                    == if (x0 <= cx <= x1 && y0 <= cy < gy) || (x0 <= cx < gx + 1 && cy == gy) {
                    bucket_at(start, gw, cx, cy).push(word_idx)
                } else {
                    bucket_at(start, gw, cx, cy)
                } by {
                    lemma_cell_index_bounds(cx, cy, gw, gh);
                    // Mentioning the cell's bucket before the push brings in
                    // the loop invariant for it.
                    assert(bucket_at(before, gw, cx, cy) == bucket_at(before, gw, cx, cy));
                    if cell_index(cx, cy, gw) == bucket_idx as int {
                        lemma_cell_index_injective(cx, cy, gx as int, gy as int, gw);
                    } else {
                        assert(bucket_at(buckets@, gw, cx, cy) == bucket_at(before, gw, cx, cy));
                    }
                }
            }
            gx = gx + 1;
        }
        gy = gy + 1;
    }
}

/// Bucket `(cx, cy)` holds exactly the indices below `n` of the boxes filed
/// under it.
pub open spec fn bucket_exact_upto(
    c: int,
    gw: int,
    gh: int,
    b: Seq<usize>,
    boxes: Seq<Rect>,
    n: int,
    cx: int,
    cy: int,
) -> bool {
    &&& forall|k: int|
        0 <= k < b.len() ==> (#[trigger] b[k] as int) < n && box_in_cell(
            boxes[b[k] as int],
            c,
            gw,
            gh,
            cx,
            cy,
        )
    &&& forall|i: int|
        0 <= i < n && box_in_cell(#[trigger] boxes[i], c, gw, gh, cx, cy) ==> b.contains(i as usize)
}

/// Bucket `(cx, cy)` holds exactly the indices of the boxes filed under it.
pub open spec fn bucket_exact(
    c: int,
    gw: int,
    gh: int,
    buckets: Seq<Vec<usize>>,
    boxes: Seq<Rect>,
    cx: int,
    cy: int,
) -> bool {
    bucket_exact_upto(c, gw, gh, bucket_at(buckets, gw, cx, cy), boxes, boxes.len() as int, cx, cy)
}

proof fn lemma_bucket_extend(
    c: int,
    gw: int,
    gh: int,
    ob: Seq<usize>,
    b: Seq<usize>,
    boxes: Seq<Rect>,
    n: int,
    cx: int,
    cy: int,
)
    requires
        0 <= n < boxes.len(),
        n <= usize::MAX,
        bucket_exact_upto(c, gw, gh, ob, boxes, n, cx, cy),
        b == if box_in_cell(boxes[n], c, gw, gh, cx, cy) {
            ob.push(n as usize)
        } else {
            ob
        },
    ensures
        bucket_exact_upto(c, gw, gh, b, boxes, n + 1, cx, cy),
{
    assert forall|k: int| 0 <= k < b.len() implies (#[trigger] b[k] as int) < n + 1 && box_in_cell(
        boxes[b[k] as int],
        c,
        gw,
        gh,
        cx,
        cy,
    ) by {
        if k < ob.len() {
            assert(b[k] == ob[k]);
            assert(box_in_cell(boxes[ob[k] as int], c, gw, gh, cx, cy));
        } else {
            assert(b[k] == n as usize);
        }
    }
    assert forall|i: int|
        0 <= i < n + 1 && box_in_cell(#[trigger] boxes[i], c, gw, gh, cx, cy) implies b.contains(
        i as usize,
    ) by {
        if i < n {
            assert(ob.contains(i as usize));
            let k = choose|k: int| 0 <= k < ob.len() && ob[k] == i as usize;
            assert(b[k] == i as usize);
        } else {
            assert(b[ob.len() as int] == n as usize);
        }
    }
}

/// Every bucket of the grid holds exactly the boxes filed under its cell.
pub open spec fn grid_exact(
    c: int,
    gw: int,
    gh: int,
    buckets: Seq<Vec<usize>>,
    boxes: Seq<Rect>,
) -> bool {
    forall|cx: int, cy: int|
        0 <= cx < gw && 0 <= cy < gh ==> #[trigger] bucket_exact(c, gw, gh, buckets, boxes, cx, cy)
}

pub struct OcrWordIndex {
    cell_size: i64,
    grid_w: usize,
    grid_h: usize,
    buckets: Vec<Vec<usize>>,
    seen: Vec<u32>,
    seen_gen: u32,
    /// The word boxes the index was built from.
    boxes: Ghost<Seq<Rect>>,
}

impl OcrWordIndex {
    /// The word boxes this index was built from, in word order.
    pub closed spec fn boxes(&self) -> Seq<Rect> {
        self.boxes@
    }

    /// Side of a grid cell.
    pub closed spec fn cell_size_spec(&self) -> int {
        self.cell_size as int
    }

    /// Number of grid columns.
    pub closed spec fn grid_w_spec(&self) -> int {
        self.grid_w as int
    }

    /// Number of grid rows.
    pub closed spec fn grid_h_spec(&self) -> int {
        self.grid_h as int
    }

    /// Whether this index was built from (a list with the same boxes as)
    /// `words`.
    pub open spec fn built_from(&self, words: Seq<OcrWord>) -> bool {
        &&& self.boxes().len() == words.len()
        &&& forall|i: int| 0 <= i < words.len() ==> #[trigger] self.boxes()[i] == words[i].bbox
    }

    /// The internal invariant: the grid has `grid_w * grid_h` buckets, each
    /// holding exactly the indices of the boxes filed under that cell, and the
    /// query marks never exceed the current generation.
    pub closed spec fn wf(&self) -> bool {
        &&& self.cell_size >= 1
        &&& self.grid_w >= 1
        &&& self.grid_h >= 1
        &&& self.buckets@.len() == self.grid_w * self.grid_h
        &&& grid_exact(
            self.cell_size as int,
            self.grid_w as int,
            self.grid_h as int,
            self.buckets@,
            self.boxes@,
        )
        &&& self.seen_gen >= 1
        &&& forall|j: int| 0 <= j < self.seen@.len() ==> #[trigger] self.seen@[j] <= self.seen_gen
    }

    /// Builds an index with the default cell size.
    pub fn build(words: &[OcrWord], image_w: i64, image_h: i64) -> (r: Self)
        requires
            grid_len(image_w as int, DEFAULT_CELL_SIZE as int) * grid_len(
                image_h as int,
                DEFAULT_CELL_SIZE as int,
            ) <= usize::MAX,
        ensures
            r.wf(),
            r.built_from(words@),
            r.cell_size_spec() == DEFAULT_CELL_SIZE,
            r.grid_w_spec() == grid_len(image_w as int, DEFAULT_CELL_SIZE as int),
            r.grid_h_spec() == grid_len(image_h as int, DEFAULT_CELL_SIZE as int),
    {
        Self::build_with_cell_size(words, image_w, image_h, DEFAULT_CELL_SIZE)
    }

    /// Builds an index over `words` for an image of `image_w` x `image_h`
    /// pixels with square cells of `cell_size` pixels (at least 1).
    pub fn build_with_cell_size(words: &[OcrWord], image_w: i64, image_h: i64, cell_size: i64) -> (r:
        Self)
        requires
            grid_len(image_w as int, effective_cell_size(cell_size as int)) * grid_len(
                image_h as int,
                effective_cell_size(cell_size as int),
            ) <= usize::MAX,
        ensures
            r.wf(),
            r.built_from(words@),
            r.cell_size_spec() == effective_cell_size(cell_size as int),
            r.grid_w_spec() == grid_len(image_w as int, effective_cell_size(cell_size as int)),
            r.grid_h_spec() == grid_len(image_h as int, effective_cell_size(cell_size as int)),
    {
        let cell_size: i64 = if cell_size < 1 {
            1
        } else {
            cell_size
        };
        let ghost c = cell_size as int;
        let mw: i128 = if image_w < 1 {
            1
        } else {
            image_w as i128
        };
        let mh: i128 = if image_h < 1 {
            1
        } else {
            image_h as i128
        };
        let gw128 = (mw + cell_size as i128 - 1) / cell_size as i128;
        let gh128 = (mh + cell_size as i128 - 1) / cell_size as i128;
        proof {
            assert(gw128 >= 1 && gh128 >= 1) by (nonlinear_arith)
                requires
                    mw >= 1,
                    mh >= 1,
                    cell_size >= 1,
                    gw128 == (mw + cell_size - 1) / (cell_size as int),
                    gh128 == (mh + cell_size - 1) / (cell_size as int),
            ;
            assert(gw128 <= gw128 * gh128 && gh128 <= gw128 * gh128) by (nonlinear_arith)
                requires
                    gw128 >= 1,
                    gh128 >= 1,
            ;
        }
        let grid_w = gw128 as usize;
        let grid_h = gh128 as usize;
        let n_cells = grid_w * grid_h;
        let mut buckets: Vec<Vec<usize>> = Vec::new();
        while buckets.len() < n_cells
            invariant
                buckets@.len() <= n_cells,
                forall|b: int| 0 <= b < buckets@.len() ==> (#[trigger] buckets@[b])@.len() == 0,
            decreases n_cells - buckets@.len(),
        {
            buckets.push(Vec::new());
        }
        let ghost gw = grid_w as int;
        let ghost gh = grid_h as int;
        let ghost boxes: Seq<Rect> = words@.map_values(|w: OcrWord| w.bbox);
        proof {
            assert forall|cx: int, cy: int| 0 <= cx < gw && 0 <= cy < gh implies #[trigger] bucket_at(
                buckets@,
                gw,
                cx,
                cy,
            ).len() == 0 by {
                lemma_cell_index_bounds(cx, cy, gw, gh);
                assert(buckets@[cell_index(cx, cy, gw)]@.len() == 0);
            }
            assert forall|cx: int, cy: int| 0 <= cx < gw && 0 <= cy < gh implies bucket_exact_upto(
                c,
                gw,
                gh,
                #[trigger] bucket_at(buckets@, gw, cx, cy),
                boxes,
                0,
                cx,
                cy,
            ) by {
                assert(bucket_at(buckets@, gw, cx, cy).len() == 0);
            }
        }
        let mut idx: usize = 0;
        while idx < words.len()
            invariant
                0 <= idx <= words@.len(),
                grid_w >= 1,
                grid_h >= 1,
                c >= 1,
                c == cell_size,
                gw == grid_w,
                gh == grid_h,
                boxes == words@.map_values(|w: OcrWord| w.bbox),
                buckets@.len() == gw * gh,
                forall|cx: int, cy: int|
                    0 <= cx < gw && 0 <= cy < gh ==> bucket_exact_upto(
                        c,
                        gw,
                        gh,
                        #[trigger] bucket_at(buckets@, gw, cx, cy),
                        boxes,
                        idx as int,
                        cx,
                        cy,
                    ),
            decreases words.len() - idx,
        {
            let ghost before = buckets@;
            insert_bbox(&mut buckets, grid_w, grid_h, cell_size, idx, words[idx].bbox);
            proof {
                assert(boxes[idx as int] == words@[idx as int].bbox);
                assert forall|cx: int, cy: int| 0 <= cx < gw && 0 <= cy < gh implies bucket_exact_upto(
                    c,
                    gw,
                    gh,
                    #[trigger] bucket_at(buckets@, gw, cx, cy),
                    boxes,
                    idx + 1,
                    cx,
                    cy,
                ) by {
                    lemma_bucket_extend(
                        c,
                        gw,
                        gh,
                        bucket_at(before, gw, cx, cy),
                        bucket_at(buckets@, gw, cx, cy),
                        boxes,
                        idx as int,
                        cx,
                        cy,
                    );
                }
            }
            idx = idx + 1;
        }
        let mut seen: Vec<u32> = Vec::new();
        while seen.len() < words.len()
            invariant
                seen@.len() <= words@.len(),
                forall|j: int| 0 <= j < seen@.len() ==> #[trigger] seen@[j] == 0,
            decreases words.len() - seen@.len(),
        {
            seen.push(0);
        }
        proof {
            assert(boxes.len() == words@.len());
            assert forall|cx: int, cy: int| 0 <= cx < gw && 0 <= cy < gh implies #[trigger] bucket_exact(
                c,
                gw,
                gh,
                buckets@,
                boxes,
                cx,
                cy,
            ) by {
                assert(bucket_exact_upto(
                    c,
                    gw,
                    gh,
                    bucket_at(buckets@, gw, cx, cy),
                    boxes,
                    idx as int,
                    cx,
                    cy,
                ));
            }
        }
        let r = OcrWordIndex {
            cell_size,
            grid_w,
            grid_h,
            buckets,
            seen,
            seen_gen: 1,
            boxes: Ghost(boxes),
        };
        proof {
            assert(r.built_from(words@));
        }
        r
    }

    /// Starts a new query generation; a wrapped counter clears all marks.
    fn next_seen_gen(&mut self) -> (g: u32)
        requires
            old(self).seen_gen >= 1,
            forall|j: int| 0 <= j < old(self).seen@.len() ==> #[trigger] old(self).seen@[j] <= old(
                self,
            ).seen_gen,
        ensures
            g == final(self).seen_gen,
            g >= 1,
            final(self).seen@.len() == old(self).seen@.len(),
            forall|j: int| 0 <= j < final(self).seen@.len() ==> #[trigger] final(self).seen@[j] < g,
            final(self).cell_size == old(self).cell_size,
            final(self).grid_w == old(self).grid_w,
            final(self).grid_h == old(self).grid_h,
            final(self).buckets == old(self).buckets,
            final(self).boxes == old(self).boxes,
    {
        if self.seen_gen == u32::MAX {
            let mut j: usize = 0;
            while j < self.seen.len()
                invariant
                    0 <= j <= self.seen@.len(),
                    self.seen@.len() == old(self).seen@.len(),
                    forall|q: int| 0 <= q < j ==> #[trigger] self.seen@[q] == 0,
                    self.seen_gen == old(self).seen_gen,
                    self.cell_size == old(self).cell_size,
                    self.grid_w == old(self).grid_w,
                    self.grid_h == old(self).grid_h,
                    self.buckets == old(self).buckets,
                    self.boxes == old(self).boxes,
                decreases self.seen@.len() - j,
            {
                self.seen.set(j, 0);
                j = j + 1;
            }
            self.seen_gen = 1;
        } else {
            self.seen_gen = self.seen_gen + 1;
        }
        self.seen_gen
    }

    /// Returns indices of words whose bounding boxes intersect `rect`, each
    /// once.
    ///
    /// `words` must be the word list the index was built from (same order and
    /// boxes); otherwise rebuild first. With another list the result still
    /// only holds valid, intersecting indices of it, but may miss some.
    pub fn query_intersecting(&mut self, words: &[OcrWord], rect: &Rect) -> (out: Vec<usize>)
        requires
            old(self).wf(),
        ensures
            final(self).wf(),
            final(self).boxes() == old(self).boxes(),
            final(self).cell_size_spec() == old(self).cell_size_spec(),
            final(self).grid_w_spec() == old(self).grid_w_spec(),
            final(self).grid_h_spec() == old(self).grid_h_spec(),
            forall|k: int|
                0 <= k < out@.len() ==> (#[trigger] out@[k] as int) < words@.len() && words@[out@[k]
                    as int].bbox.spec_intersects(*rect),
            forall|k1: int, k2: int|
                0 <= k1 < k2 < out@.len() ==> #[trigger] out@[k1] != #[trigger] out@[k2],
            words@.len() == 0 || rect.w < 0 || rect.h < 0 || !rect.has_units() ==> out@.len() == 0,
            old(self).built_from(words@) ==> forall|k: int|
                0 <= k < out@.len() ==> has_area(#[trigger] words@[out@[k] as int].bbox),
            old(self).built_from(words@) && rect.w >= 0 && rect.h >= 0 && rect.has_units() ==> forall|i: int|
                #[trigger] query_answer(old(self).boxes(), *rect, i) ==> out@.contains(i as usize),
            old(self).built_from(words@) && rect.w >= 0 && rect.h >= 0 && rect.den_x >= 1
                && rect.den_y >= 1 ==> forall|i: int|
                0 <= i < words@.len() && #[trigger] words@[i].bbox.w > 0 && words@[i].bbox.h > 0
                    && words@[i].bbox.den_x >= 1 && words@[i].bbox.den_y >= 1
                    && words@[i].bbox.spec_intersects(*rect) ==> out@.contains(i as usize),
    {
        if words.len() == 0 {
            return Vec::new();
        }
        if self.seen.len() != words.len() {
            // The index must be rebuilt when `words` changes; this only keeps
            // the marks vector in step with the list.
            let mut fresh: Vec<u32> = Vec::new();
            while fresh.len() < words.len()
                invariant
                    fresh@.len() <= words@.len(),
                    forall|j: int| 0 <= j < fresh@.len() ==> #[trigger] fresh@[j] == 0,
                decreases words.len() - fresh@.len(),
            {
                fresh.push(0);
            }
            self.seen = fresh;
            self.seen_gen = 1;
        }
        let range = cell_range(self.cell_size, self.grid_w, self.grid_h, rect);
        let (x0, y0, x1, y1) = match range {
            Some(r) => r,
            None => {
                return Vec::new();
            },
        };
        let gen = self.next_seen_gen();
        let ghost c = self.cell_size as int;
        let ghost gw = self.grid_w as int;
        let ghost gh = self.grid_h as int;
        let ghost boxes = self.boxes@;
        let ghost bs = self.buckets@;
        let n = words.len();
        let grid_w = self.grid_w;
        let nb = self.buckets.len();
        let mut seen: Vec<u32> = Vec::new();
        std::mem::swap(&mut seen, &mut self.seen);
        let mut out: Vec<usize> = Vec::new();
        let ghost mut vis: Set<int> = Set::empty();
        let mut gy: usize = y0;
        while gy <= y1
            invariant
                y0 <= gy <= y1 + 1,
                x0 <= x1 < gw,
                y0 <= y1 < gh,
                gw == grid_w,
                gw == self.grid_w,
                gh == self.grid_h,
                self.buckets@ == bs,
                bs.len() == gw * gh,
                bs.len() == nb,
                self.cell_size == old(self).cell_size,
                self.grid_w == old(self).grid_w,
                self.grid_h == old(self).grid_h,
                self.buckets == old(self).buckets,
                self.boxes == old(self).boxes,
                n == words@.len(),
                seen@.len() == n,
                gen >= 1,
                forall|j: int| 0 <= j < n ==> #[trigger] seen@[j] <= gen,
                forall|j: int| 0 <= j < n ==> ((#[trigger] seen@[j] == gen) <==> vis.contains(j)),
                forall|j: int| #[trigger] vis.contains(j) ==> 0 <= j < n,
                forall|k: int|
                    0 <= k < out@.len() ==> (#[trigger] out@[k] as int) < n && vis.contains(
                        out@[k] as int,
                    ) && words@[out@[k] as int].bbox.spec_intersects(*rect),
                forall|k1: int, k2: int|
                    0 <= k1 < k2 < out@.len() ==> #[trigger] out@[k1] != #[trigger] out@[k2],
                forall|j: int|
                    #[trigger] vis.contains(j) && words@[j].bbox.spec_intersects(*rect)
                        ==> out@.contains(j as usize),
                forall|j: int| #[trigger] vis.contains(j) ==> exists|cx: int, cy: int, k: int|
                    0 <= cx < gw && 0 <= cy < gh && 0 <= k < bucket_at(bs, gw, cx, cy).len()
                        && #[trigger] bucket_at(bs, gw, cx, cy)[k] == j as usize,
                forall|cx: int, cy: int, k: int|
                    x0 <= cx <= x1 && y0 <= cy < gy && 0 <= k < bucket_at(bs, gw, cx, cy).len()
                        && (#[trigger] bucket_at(bs, gw, cx, cy)[k] as int) < n ==> vis.contains(
                        bucket_at(bs, gw, cx, cy)[k] as int,
                    ),
            decreases y1 + 1 - gy,
        {
            let mut gx: usize = x0;
            while gx <= x1
                invariant
                    y0 <= gy <= y1,
                    x0 <= gx <= x1 + 1,
                    x0 <= x1 < gw,
                    y0 <= y1 < gh,
                    gw == grid_w,
                    gw == self.grid_w,
                    gh == self.grid_h,
                    self.buckets@ == bs,
                    bs.len() == gw * gh,
                    bs.len() == nb,
                    self.cell_size == old(self).cell_size,
                    self.grid_w == old(self).grid_w,
                    self.grid_h == old(self).grid_h,
                    self.buckets == old(self).buckets,
                    self.boxes == old(self).boxes,
                    n == words@.len(),
                    seen@.len() == n,
                    gen >= 1,
                    forall|j: int| 0 <= j < n ==> #[trigger] seen@[j] <= gen,
                    forall|j: int| 0 <= j < n ==> ((#[trigger] seen@[j] == gen) <==> vis.contains(j)),
                    forall|j: int| #[trigger] vis.contains(j) ==> 0 <= j < n,
                    forall|k: int|
                        0 <= k < out@.len() ==> (#[trigger] out@[k] as int) < n && vis.contains(
                            out@[k] as int,
                        ) && words@[out@[k] as int].bbox.spec_intersects(*rect),
                    forall|k1: int, k2: int|
                        0 <= k1 < k2 < out@.len() ==> #[trigger] out@[k1] != #[trigger] out@[k2],
                    forall|j: int|
                        #[trigger] vis.contains(j) && words@[j].bbox.spec_intersects(*rect)
                            ==> out@.contains(j as usize),
                    forall|j: int| #[trigger] vis.contains(j) ==> exists|cx: int, cy: int, k: int|
                        0 <= cx < gw && 0 <= cy < gh && 0 <= k < bucket_at(bs, gw, cx, cy).len()
                            && #[trigger] bucket_at(bs, gw, cx, cy)[k] == j as usize,
                    forall|cx: int, cy: int, k: int|
                        ((x0 <= cx <= x1 && y0 <= cy < gy) || (x0 <= cx < gx && cy == gy)) && 0
                            <= k < bucket_at(bs, gw, cx, cy).len() && (#[trigger] bucket_at(
                            bs,
                            gw,
                            cx,
                            cy,
                        )[k] as int) < n ==> vis.contains(bucket_at(bs, gw, cx, cy)[k] as int),
                decreases x1 + 1 - gx,
            {
                proof {
                    lemma_cell_index_bounds(gx as int, gy as int, gw, gh);
                }
                let bucket_idx = gy * grid_w + gx;
                let bucket = &self.buckets[bucket_idx];
                assert(bucket@ == bucket_at(bs, gw, gx as int, gy as int));
                let mut pos: usize = 0;
                while pos < bucket.len()
                    invariant
                        0 <= pos <= bucket@.len(),
                        bucket@ == bucket_at(bs, gw, gx as int, gy as int),
                        y0 <= gy <= y1,
                        x0 <= gx <= x1,
                        x0 <= x1 < gw,
                        y0 <= y1 < gh,
                        n == words@.len(),
                        seen@.len() == n,
                        gen >= 1,
                        forall|j: int| 0 <= j < n ==> #[trigger] seen@[j] <= gen,
                        forall|j: int|
                            0 <= j < n ==> ((#[trigger] seen@[j] == gen) <==> vis.contains(j)),
                        forall|j: int| #[trigger] vis.contains(j) ==> 0 <= j < n,
                        forall|k: int|
                            0 <= k < out@.len() ==> (#[trigger] out@[k] as int) < n
                                && vis.contains(out@[k] as int) && words@[out@[k] as int].bbox.spec_intersects(
                                *rect,
                            ),
                        forall|k1: int, k2: int|
                            0 <= k1 < k2 < out@.len() ==> #[trigger] out@[k1] != #[trigger] out@[k2],
                        forall|j: int|
                            #[trigger] vis.contains(j) && words@[j].bbox.spec_intersects(*rect)
                                ==> out@.contains(j as usize),
                        forall|j: int| #[trigger] vis.contains(j) ==> exists|cx: int, cy: int, k: int|
                            0 <= cx < gw && 0 <= cy < gh && 0 <= k < bucket_at(bs, gw, cx, cy).len()
                                && #[trigger] bucket_at(bs, gw, cx, cy)[k] == j as usize,
                        forall|cx: int, cy: int, k: int|
                            ((x0 <= cx <= x1 && y0 <= cy < gy) || (x0 <= cx < gx && cy == gy) || (
                            cx == gx && cy == gy && k < pos)) && 0 <= k < bucket_at(
                                bs,
                                gw,
                                cx,
                                cy,
                            ).len() && (#[trigger] bucket_at(bs, gw, cx, cy)[k] as int) < n
                                ==> vis.contains(bucket_at(bs, gw, cx, cy)[k] as int),
                    decreases bucket@.len() - pos,
                {
                    let word_idx = bucket[pos];
                    // A list other than the one the index was built from can be
                    // shorter than the stored indices: skip, never panic.
                    if word_idx < n {
                        if seen[word_idx] != gen {
                            seen.set(word_idx, gen);
                            let ghost old_vis = vis;
                            proof {
                                vis = vis.insert(word_idx as int);
                                assert(bucket_at(bs, gw, gx as int, gy as int)[pos as int]
                                    == word_idx);
                            }
                            if words[word_idx].bbox.intersects(rect) {
                                let ghost old_out = out@;
                                out.push(word_idx);
                                proof {
                                    assert(out@[out@.len() - 1] == word_idx);
                                    assert forall|j: int|
                                        #[trigger] vis.contains(j) && words@[j].bbox.spec_intersects(
                                            *rect,
                                        ) implies out@.contains(j as usize) by {
                                        if j != word_idx as int {
                                            assert(old_vis.contains(j));
                                            assert(old_out.contains(j as usize));
                                            let k = choose|k: int|
                                                0 <= k < old_out.len() && old_out[k] == j as usize;
                                            assert(out@[k] == j as usize);
                                        }
                                    }
                                }
                            } else {
                                proof {
                                    assert forall|j: int|
                                        #[trigger] vis.contains(j) && words@[j].bbox.spec_intersects(
                                            *rect,
                                        ) implies out@.contains(j as usize) by {
                                        if j != word_idx as int {
                                            assert(old_vis.contains(j));
                                        }
                                    }
                                }
                            }
                        } else {
                            assert(bucket_at(bs, gw, gx as int, gy as int)[pos as int] == word_idx);
                        }
                    }
                    pos = pos + 1;
                }
                gx = gx + 1;
            }
            gy = gy + 1;
        }
        std::mem::swap(&mut seen, &mut self.seen);
        proof {
            if self.boxes@.len() == n && forall|i: int|
                0 <= i < n ==> #[trigger] self.boxes@[i] == words@[i].bbox {
                assert forall|k: int| 0 <= k < out@.len() implies has_area(
                    #[trigger] words@[out@[k] as int].bbox,
                ) by {
                    let j = out@[k] as int;
                    assert(vis.contains(j));
                    let (cx, cy, q) = choose|cx: int, cy: int, q: int|
                        0 <= cx < gw && 0 <= cy < gh && 0 <= q < bucket_at(bs, gw, cx, cy).len()
                            && #[trigger] bucket_at(bs, gw, cx, cy)[q] == j as usize;
                    assert(bucket_exact(c, gw, gh, bs, boxes, cx, cy));
                    assert(self.boxes@[j] == words@[j].bbox);
                }
                assert forall|i: int| #[trigger] query_answer(boxes, *rect, i) implies out@.contains(
                    i as usize,
                ) by {
                    let bx = boxes[i];
                    assert(bx == words@[i].bbox);
                    let (bdx, bdy) = (bx.den_x as int, bx.den_y as int);
                    let (rdx, rdy) = (rect.den_x as int, rect.den_y as int);
                    lemma_cell_of_cross(bx.x as int, bdx, rect.right(), rdx, c, gw);
                    lemma_cell_of_cross(rect.x as int, rdx, bx.right(), bdx, c, gw);
                    lemma_cell_of_cross(bx.y as int, bdy, rect.bottom(), rdy, c, gh);
                    lemma_cell_of_cross(rect.y as int, rdy, bx.bottom(), bdy, c, gh);
                    lemma_cell_of_monotone_units(bx.x as int, bx.right(), bdx, c, gw);
                    lemma_cell_of_monotone_units(bx.y as int, bx.bottom(), bdy, c, gh);
                    let cx = if cell_of(bx.x as int, c * bdx, gw) > x0 {
                        cell_of(bx.x as int, c * bdx, gw)
                    } else {
                        x0 as int
                    };
                    let cy = if cell_of(bx.y as int, c * bdy, gh) > y0 {
                        cell_of(bx.y as int, c * bdy, gh)
                    } else {
                        y0 as int
                    };
                    assert(box_in_cell(bx, c, gw, gh, cx, cy));
                    assert(bucket_exact(c, gw, gh, bs, boxes, cx, cy));
                    let b = bucket_at(bs, gw, cx, cy);
                    assert(b.contains(i as usize));
                    let q = choose|q: int| 0 <= q < b.len() && b[q] == i as usize;
                    assert(bucket_at(bs, gw, cx, cy)[q] == i as usize);
                    assert(vis.contains(i));
                }
                assert forall|i: int|
                    0 <= i < words@.len() && #[trigger] words@[i].bbox.w > 0 && words@[i].bbox.h
                        > 0 && words@[i].bbox.den_x >= 1 && words@[i].bbox.den_y >= 1
                        && words@[i].bbox.spec_intersects(*rect) implies out@.contains(i as usize) by {
                    assert(self.boxes@[i] == words@[i].bbox);
                    assert(query_answer(boxes, *rect, i));
                }
            }
        }
        out
    }
}

/// Every proper box is indexed: a box with positive width and height and
/// positive units on both axes has area, whatever its two units are.
pub proof fn proper_boxes_have_area(r: Rect)
    requires
        r.w > 0,
        r.h > 0,
        r.den_x >= 1,
        r.den_y >= 1,
    ensures
        has_area(r),
{
}

} // verus!

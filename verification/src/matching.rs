//! The matching engine and the detection aggregator.
//!
//! The engine slides a template over a frame and scores every valid
//! alignment offset. The score of one offset is a normalized similarity in
//! parts per million, computed only over the pixels that the template's
//! opacity mask selects: with `cnt` selected pixels and `sad` the sum of the
//! absolute sample differences at the offset, the score is
//! `(255*cnt - sad) * 1_000_000 / (255*cnt)`, so a perfect agreement scores
//! `1_000_000` and a maximal disagreement scores `0`. The engine reports the
//! earliest (row-major) offset holding the maximum score, and only if that
//! maximum is strictly greater than the acceptance threshold.

use crate::raster::Raster;
use vstd::prelude::*;

verus! {

/// Acceptance threshold of the matching decision, in parts per million:
/// a best score strictly greater than this produces a match.
pub const MATCH_THRESHOLD: u64 = 850_000;

/// Scores are fractions of the maximum possible agreement, expressed in
/// parts per million.
pub const SCORE_SCALE: u64 = 1_000_000;

/// One catalog template: a unique id, a reference image and the opacity
/// mask telling which of its pixels take part in matching.
#[derive(Clone, Debug)]
pub struct Item {
    pub id: u32,
    pub pic: Raster,
    pub mask: Raster,
}

impl Item {
    /// Well-formed: both rasters are well-formed and the mask has the same
    /// dimensions as the image.
    pub open spec fn wf(self) -> bool {
        &&& self.pic.wf()
        &&& self.mask.wf()
        &&& self.mask.width == self.pic.width
        &&& self.mask.height == self.pic.height
    }
}

/// One accepted detection: the template's id, the top-left corner of the
/// best alignment, the template's size, and the score that won.
#[derive(Clone, Copy, Debug, PartialEq, Eq, Structural)]
pub struct Match {
    pub id: u32,
    pub x: usize,
    pub y: usize,
    pub width: usize,
    pub height: usize,
    pub score: u64,
}

/// Absolute difference of two samples.
pub open spec fn abs_diff(a: u8, b: u8) -> int {
    if a >= b {
        a - b
    } else {
        b - a
    }
}

/// Number of mask-selected cells among the first `n` columns of template
/// row `ty`.
pub open spec fn row_count(it: Item, ty: int, n: int) -> int
    decreases n,
{
    if n <= 0 {
        0
    } else {
        row_count(it, ty, n - 1) + if it.mask.spec_px(n - 1, ty) != 0 {
            1int
        } else {
            0int
        }
    }
}

/// Number of mask-selected cells among the first `n` rows of the template.
pub open spec fn rows_count(it: Item, n: int) -> int
    decreases n,
{
    if n <= 0 {
        0
    } else {
        rows_count(it, n - 1) + row_count(it, n - 1, it.pic.width as int)
    }
}

/// Number of mask-selected cells of the whole template.
pub open spec fn masked_count(it: Item) -> int {
    rows_count(it, it.pic.height as int)
}

/// Sum of absolute differences over the mask-selected cells of template row
/// `ty`, columns below `n`, with the template laid at offset `(ox, oy)`.
pub open spec fn row_sad(f: Raster, it: Item, ox: int, oy: int, ty: int, n: int) -> int
    decreases n,
{
    if n <= 0 {
        0
    } else {
        row_sad(f, it, ox, oy, ty, n - 1) + if it.mask.spec_px(n - 1, ty) != 0 {
            abs_diff(f.spec_px(ox + n - 1, oy + ty), it.pic.spec_px(n - 1, ty))
        } else {
            0int
        }
    }
}

/// Sum of absolute differences over the mask-selected cells of the first
/// `n` template rows at offset `(ox, oy)`.
pub open spec fn rows_sad(f: Raster, it: Item, ox: int, oy: int, n: int) -> int
    decreases n,
{
    if n <= 0 {
        0
    } else {
        rows_sad(f, it, ox, oy, n - 1) + row_sad(f, it, ox, oy, n - 1, it.pic.width as int)
    }
}

/// Sum of absolute differences over all mask-selected cells at offset
/// `(ox, oy)`.
pub open spec fn masked_sad(f: Raster, it: Item, ox: int, oy: int) -> int {
    rows_sad(f, it, ox, oy, it.pic.height as int)
}

/// The similarity score of offset `(ox, oy)`, in parts per million of the
/// maximum possible agreement over the mask-selected cells.
pub open spec fn spec_score(f: Raster, it: Item, ox: int, oy: int) -> int {
    ((255 * masked_count(it) - masked_sad(f, it, ox, oy)) * (SCORE_SCALE as int)) / (255
        * masked_count(it))
}

/// Folds one offset into the running best: a strictly greater score takes
/// over, so among equal maxima the earliest offset is kept.
pub open spec fn better(prev: Option<(int, int, int)>, s: int, ox: int, oy: int) -> Option<
    (int, int, int),
> {
    match prev {
        None => Some((s, ox, oy)),
        Some(p) => if s > p.0 {
            Some((s, ox, oy))
        } else {
            Some(p)
        },
    }
}

/// Best (score, ox, oy) after folding the first `n` offsets of offset row
/// `oy` into `acc`.
pub open spec fn row_best(f: Raster, it: Item, oy: int, n: int, acc: Option<(int, int, int)>)
    -> Option<(int, int, int)>
    decreases n,
{
    if n <= 0 {
        acc
    } else {
        better(row_best(f, it, oy, n - 1, acc), spec_score(f, it, n - 1, oy), n - 1, oy)
    }
}

/// Best (score, ox, oy) over the first `n` offset rows, scanned row-major.
pub open spec fn all_best(f: Raster, it: Item, n: int) -> Option<(int, int, int)>
    decreases n,
{
    if n <= 0 {
        None
    } else {
        row_best(f, it, n - 1, f.width - it.pic.width + 1, all_best(f, it, n - 1))
    }
}

/// The best alignment of the template over the frame: `None` when the
/// template does not fit into the frame or when the mask selects no pixel
/// (a degenerate score), else the earliest row-major offset with the
/// maximum score.
pub open spec fn spec_best(f: Raster, it: Item) -> Option<(int, int, int)> {
    if it.pic.width <= f.width && it.pic.height <= f.height && masked_count(it) > 0 {
        all_best(f, it, f.height - it.pic.height + 1)
    } else {
        None
    }
}

/// The matching decision for one (frame, template) pair: a match exists
/// exactly when a best alignment exists and its score is strictly greater
/// than `threshold`.
pub open spec fn spec_match_at(f: Raster, it: Item, threshold: u64) -> Option<Match> {
    match spec_best(f, it) {
        None => None,
        Some(b) => if b.0 > threshold {
            Some(
                Match {
                    id: it.id,
                    x: b.1 as usize,
                    y: b.2 as usize,
                    width: it.pic.width,
                    height: it.pic.height,
                    score: b.0 as u64,
                },
            )
        } else {
            None
        },
    }
}

/// Row counts stay between 0 and the number of columns counted.
pub proof fn lemma_row_count_bounds(it: Item, ty: int, n: int)
    requires
        n >= 0,
    ensures
        0 <= row_count(it, ty, n) <= n,
    decreases n,
{
    if n > 0 {
        lemma_row_count_bounds(it, ty, n - 1);
    }
}

/// Cell counts stay between 0 and the number of cells counted.
pub proof fn lemma_rows_count_bounds(it: Item, n: int)
    requires
        n >= 0,
    ensures
        0 <= rows_count(it, n) <= n * it.pic.width,
    decreases n,
{
    if n > 0 {
        lemma_rows_count_bounds(it, n - 1);
        lemma_row_count_bounds(it, n - 1, it.pic.width as int);
        assert(n * it.pic.width == (n - 1) * it.pic.width + it.pic.width) by (nonlinear_arith);
    }
}

/// A row's difference sum stays between 0 and 255 per counted cell.
pub proof fn lemma_row_sad_bounds(f: Raster, it: Item, ox: int, oy: int, ty: int, n: int)
    requires
        n >= 0,
    ensures
        0 <= row_sad(f, it, ox, oy, ty, n) <= 255 * row_count(it, ty, n),
    decreases n,
{
    if n > 0 {
        lemma_row_sad_bounds(f, it, ox, oy, ty, n - 1);
    }
}

/// The difference sum stays between 0 and 255 per mask-selected cell.
pub proof fn lemma_rows_sad_bounds(f: Raster, it: Item, ox: int, oy: int, n: int)
    requires
        n >= 0,
    ensures
        0 <= rows_sad(f, it, ox, oy, n) <= 255 * rows_count(it, n),
    decreases n,
{
    if n > 0 {
        lemma_rows_sad_bounds(f, it, ox, oy, n - 1);
        lemma_row_sad_bounds(f, it, ox, oy, n - 1, it.pic.width as int);
        lemma_row_count_bounds(it, n - 1, it.pic.width as int);
    }
}

/// Whether an executable best-so-far equals a specified one.
pub open spec fn best_eq(e: Option<(u64, usize, usize)>, s: Option<(int, int, int)>) -> bool {
    match (e, s) {
        (Option::None, Option::None) => true,
        (Option::Some(a), Option::Some(b)) => a.0 == b.0 && a.1 == b.1 && a.2 == b.2,
        _ => false,
    }
}

/// Counts the mask-selected cells of a template.
fn count_masked(item: &Item) -> (cnt: u64)
    requires
        item.wf(),
    ensures
        cnt == masked_count(*item),
{
    let tw = item.pic.width;
    let th = item.pic.height;
    let mut cnt: u64 = 0;
    let mut ty: usize = 0;
    while ty < th
        invariant
            item.wf(),
            tw == item.pic.width,
            th == item.pic.height,
            ty <= th,
            cnt == rows_count(*item, ty as int),
            cnt <= ty * tw,
        decreases th - ty,
    {
        let mut tx: usize = 0;
        while tx < tw
            invariant
                item.wf(),
                tw == item.pic.width,
                th == item.pic.height,
                ty < th,
                tx <= tw,
                cnt == rows_count(*item, ty as int) + row_count(*item, ty as int, tx as int),
                cnt <= ty * tw + tx,
            decreases tw - tx,
        {
            proof {
                assert(ty * tw + tx < 0xFFFF * 0xFFFF + 0xFFFF) by (nonlinear_arith)
                    requires
                        ty < th,
                        tx < tw,
                        tw <= 0xFFFF,
                        th <= 0xFFFF,
                        ty >= 0,
                        tx >= 0,
                ;
            }
            if item.mask.px(tx, ty) != 0 {
                cnt = cnt + 1;
            }
            tx = tx + 1;
        }
        proof {
            assert((ty + 1) * (tw as int) == ty * (tw as int) + tw) by (nonlinear_arith);
        }
        ty = ty + 1;
    }
    proof {
        lemma_rows_count_bounds(*item, th as int);
    }
    cnt
}

/// Sum of absolute differences over the mask-selected cells with the
/// template laid at offset `(ox, oy)`.
fn sad_at(frame: &Raster, item: &Item, ox: usize, oy: usize) -> (sad: u64)
    requires
        frame.wf(),
        item.wf(),
        ox + item.pic.width <= frame.width,
        oy + item.pic.height <= frame.height,
    ensures
        sad == masked_sad(*frame, *item, ox as int, oy as int),
{
    let tw = item.pic.width;
    let th = item.pic.height;
    let mut sad: u64 = 0;
    let mut ty: usize = 0;
    while ty < th
        invariant
            frame.wf(),
            item.wf(),
            tw == item.pic.width,
            th == item.pic.height,
            ox + tw <= frame.width,
            oy + th <= frame.height,
            ty <= th,
            sad == rows_sad(*frame, *item, ox as int, oy as int, ty as int),
            sad <= 255 * (ty * tw),
        decreases th - ty,
    {
        let mut tx: usize = 0;
        while tx < tw
            invariant
                frame.wf(),
                item.wf(),
                tw == item.pic.width,
                th == item.pic.height,
                ox + tw <= frame.width,
                oy + th <= frame.height,
                ty < th,
                tx <= tw,
                sad == rows_sad(*frame, *item, ox as int, oy as int, ty as int) + row_sad(
                    *frame,
                    *item,
                    ox as int,
                    oy as int,
                    ty as int,
                    tx as int,
                ),
                sad <= 255 * (ty * tw + tx),
            decreases tw - tx,
        {
            proof {
                assert(255 * (ty * tw + tx) + 255 <= 255 * (0xFFFF * 0xFFFF + 0xFFFF))
                    by (nonlinear_arith)
                    requires
                        ty < th,
                        tx < tw,
                        tw <= 0xFFFF,
                        th <= 0xFFFF,
                        ty >= 0,
                        tx >= 0,
                ;
            }
            if item.mask.px(tx, ty) != 0 {
                let fp = frame.px(ox + tx, oy + ty);
                let tp = item.pic.px(tx, ty);
                let d = if fp >= tp {
                    fp - tp
                } else {
                    tp - fp
                };
                sad = sad + d as u64;
            }
            tx = tx + 1;
        }
        proof {
            assert(255 * ((ty + 1) * (tw as int)) == 255 * (ty * (tw as int)) + 255 * tw)
                by (nonlinear_arith);
        }
        ty = ty + 1;
    }
    sad
}

/// The matching engine on one (frame, template) pair: scores every valid
/// alignment offset and accepts the best one exactly when its score is
/// strictly greater than `threshold`. Returns `None` when the template does
/// not fit into the frame, when the mask selects no pixel, or when the best
/// score does not exceed the threshold.
pub fn match_template(frame: &Raster, item: &Item, threshold: u64) -> (r: Option<Match>)
    requires
        frame.wf(),
        item.wf(),
    ensures
        r == spec_match_at(*frame, *item, threshold),
{
    let tw = item.pic.width;
    let th = item.pic.height;
    let fw = frame.width;
    let fh = frame.height;
    if tw > fw || th > fh {
        return None;
    }
    let cnt = count_masked(item);
    if cnt == 0 {
        return None;
    }
    proof {
        lemma_rows_count_bounds(*item, th as int);
        assert(th * tw <= 0xFFFF * 0xFFFF) by (nonlinear_arith)
            requires
                tw <= 0xFFFF,
                th <= 0xFFFF,
                tw >= 0,
                th >= 0,
        ;
    }
    let denom: u64 = 255 * cnt;
    let nx = fw - tw + 1;
    let ny = fh - th + 1;
    let mut best: Option<(u64, usize, usize)> = None;
    let mut oy: usize = 0;
    while oy < ny
        invariant
            frame.wf(),
            item.wf(),
            tw == item.pic.width,
            th == item.pic.height,
            fw == frame.width,
            fh == frame.height,
            tw <= fw,
            th <= fh,
            nx == fw - tw + 1,
            ny == fh - th + 1,
            cnt == masked_count(*item),
            0 < cnt <= 0xFFFF * 0xFFFF,
            denom == 255 * cnt,
            oy <= ny,
            best_eq(best, all_best(*frame, *item, oy as int)),
        decreases ny - oy,
    {
        let mut ox: usize = 0;
        while ox < nx
            invariant
                frame.wf(),
                item.wf(),
                tw == item.pic.width,
                th == item.pic.height,
                fw == frame.width,
                fh == frame.height,
                tw <= fw,
                th <= fh,
                nx == fw - tw + 1,
                ny == fh - th + 1,
                cnt == masked_count(*item),
                0 < cnt <= 0xFFFF * 0xFFFF,
                denom == 255 * cnt,
                oy < ny,
                ox <= nx,
                best_eq(
                    best,
                    row_best(
                        *frame,
                        *item,
                        oy as int,
                        ox as int,
                        all_best(*frame, *item, oy as int),
                    ),
                ),
            decreases nx - ox,
        {
            let sad = sad_at(frame, item, ox, oy);
            proof {
                lemma_rows_sad_bounds(*frame, *item, ox as int, oy as int, th as int);
            }
            let score: u64 = ((denom - sad) * SCORE_SCALE) / denom;
            let cur_best = match best {
                None => true,
                Some(b) => score > b.0,
            };
            if cur_best {
                best = Some((score, ox, oy));
            }
            ox = ox + 1;
        }
        oy = oy + 1;
    }
    match best {
        None => None,
        Some(b) => if b.0 > threshold {
            Some(
                Match {
                    id: item.id,
                    x: b.1,
                    y: b.2,
                    width: tw,
                    height: th,
                    score: b.0,
                },
            )
        } else {
            None
        },
    }
}

/// Matching Engine determinism: any two results of the engine on identical
/// (frame, template, threshold) inputs are identical, because each equals
/// the one value the matching decision specifies for those inputs.
pub proof fn lemma_engine_deterministic(
    f: Raster,
    it: Item,
    threshold: u64,
    r1: Option<Match>,
    r2: Option<Match>,
)
    requires
        r1 == spec_match_at(f, it, threshold),
        r2 == spec_match_at(f, it, threshold),
    ensures
        r1 == r2,
{
}

/// Threshold boundary: a best score exactly equal to the threshold
/// produces no match, while one strictly greater does.
pub proof fn lemma_threshold_boundary(f: Raster, it: Item, threshold: u64)
    requires
        spec_best(f, it) is Some,
    ensures
        spec_best(f, it).unwrap().0 == threshold ==> spec_match_at(f, it, threshold) is None,
        spec_best(f, it).unwrap().0 > threshold ==> spec_match_at(f, it, threshold) is Some,
{
}

/// The engine applied to a sequence of templates in order, keeping the
/// accepted matches.
pub open spec fn spec_matches(f: Raster, items: Seq<Item>, threshold: u64) -> Seq<Match>
    decreases items.len(),
{
    if items.len() == 0 {
        Seq::empty()
    } else {
        spec_matches(f, items.drop_last(), threshold) + match spec_match_at(
            f,
            items.last(),
            threshold,
        ) {
            Some(m) => seq![m],
            None => Seq::empty(),
        }
    }
}

/// Runs the matching engine over every template of `items` on one frame,
/// with the fixed acceptance threshold, and collects the accepted matches
/// in catalog order.
pub fn get_matches(image: &Raster, items: &Vec<Item>) -> (r: Vec<Match>)
    requires
        image.wf(),
        forall|i: int| 0 <= i < items.len() ==> (#[trigger] items[i]).wf(),
    ensures
        r@ == spec_matches(*image, items@, MATCH_THRESHOLD),
{
    let mut r: Vec<Match> = Vec::new();
    let mut i: usize = 0;
    while i < items.len()
        invariant
            image.wf(),
            forall|k: int| 0 <= k < items.len() ==> (#[trigger] items[k]).wf(),
            i <= items.len(),
            r@ == spec_matches(*image, items@.take(i as int), MATCH_THRESHOLD),
        decreases items.len() - i,
    {
        let m = match_template(image, &items[i], MATCH_THRESHOLD);
        proof {
            assert(items@.take(i + 1).drop_last() =~= items@.take(i as int));
            assert(items@.take(i + 1).last() == items@[i as int]);
        }
        match m {
            Some(mm) => r.push(mm),
            None => (),
        }
        i = i + 1;
    }
    proof {
        assert(items@.take(items.len() as int) =~= items@);
    }
    r
}

/// Extracts the ids of a batch of matches, deduplicated and in ascending
/// order: an id is in the result exactly when some match carries it, and
/// the result is strictly increasing.
pub fn get_uniq_ids(matches: Vec<Match>) -> (r: Vec<u32>)
    ensures
        forall|i: int, j: int| 0 <= i < j < r.len() ==> r[i] < r[j],
        forall|id: u32|
            r@.contains(id) <==> exists|k: int| 0 <= k < matches.len() && matches[k].id == id,
{
    let mut r: Vec<u32> = Vec::new();
    let mut i: usize = 0;
    while i < matches.len()
        invariant
            i <= matches.len(),
            forall|p: int, q: int| 0 <= p < q < r.len() ==> r[p] < r[q],
            forall|id: u32|
                r@.contains(id) <==> exists|k: int| 0 <= k < i && matches[k].id == id,
        decreases matches.len() - i,
    {
        let id = matches[i].id;
        let mut pos: usize = 0;
        while pos < r.len() && r[pos] < id
            invariant
                pos <= r.len(),
                forall|p: int, q: int| 0 <= p < q < r.len() ==> r[p] < r[q],
                forall|p: int| 0 <= p < pos ==> r[p] < id,
            decreases r.len() - pos,
        {
            pos = pos + 1;
        }
        let ghost pre = r@;
        if pos == r.len() || r[pos] > id {
            r.insert(pos, id);
            proof {
                pre.insert_ensures(pos as int, id);
                assert forall|p: int, q: int| 0 <= p < q < r.len() implies r[p] < r[q] by {
                    if q < pos {
                    } else if p < pos && q == pos {
                        assert(r[q] == id);
                    } else if p < pos && q > pos {
                        assert(r[q] == pre[q - 1]);
                        if q - 1 == pos {
                            assert(pre[pos as int] > id);
                        } else {
                            assert(pre[pos as int] > id || pos == pre.len());
                        }
                    } else if p == pos {
                        assert(r[p] == id);
                        assert(r[q] == pre[q - 1]);
                        assert(pre[pos as int] > id || pos == pre.len());
                    } else {
                        assert(r[p] == pre[p - 1]);
                        assert(r[q] == pre[q - 1]);
                    }
                }
                assert forall|v: u32|
                    r@.contains(v) <==> (exists|k: int|
                        0 <= k < i + 1 && matches[k].id == v) by {
                    if r@.contains(v) {
                        let w = choose|w: int| 0 <= w < r@.len() && r@[w] == v;
                        if w < pos {
                            assert(pre[w] == v);
                            assert(pre.contains(v));
                        } else if w == pos {
                            assert(v == id);
                            assert(matches[i as int].id == v);
                        } else {
                            assert(pre[w - 1] == v);
                            assert(pre.contains(v));
                        }
                    }
                    if exists|k: int| 0 <= k < i + 1 && matches[k].id == v {
                        let k = choose|k: int| 0 <= k < i + 1 && matches[k].id == v;
                        if k < i {
                            assert(pre.contains(v));
                            let w = choose|w: int| 0 <= w < pre.len() && pre[w] == v;
                            if w < pos {
                                assert(r@[w] == v);
                            } else {
                                assert(r@[w + 1] == v);
                            }
                            assert(r@.contains(v));
                        } else {
                            assert(v == id);
                            assert(r@[pos as int] == v);
                            assert(r@.contains(v));
                        }
                    }
                }
            }
        } else {
            proof {
                assert(r@[pos as int] == id);
                assert(r@.contains(id));
                assert forall|v: u32|
                    r@.contains(v) <==> (exists|k: int|
                        0 <= k < i + 1 && matches[k].id == v) by {
                    if r@.contains(v) {
                        assert(exists|k: int| 0 <= k < i && matches[k].id == v);
                    }
                    if exists|k: int| 0 <= k < i + 1 && matches[k].id == v {
                        let k = choose|k: int| 0 <= k < i + 1 && matches[k].id == v;
                        if k < i {
                            assert(r@.contains(v));
                        } else {
                            assert(v == id);
                        }
                    }
                }
            }
        }
        i = i + 1;
    }
    r
}

} // verus!

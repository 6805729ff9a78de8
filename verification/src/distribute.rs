//! The work distributor: partitions the catalog into one contiguous slice
//! per worker and defines what a full matching round over a batch of frames
//! produces.
//!
//! The partition is deterministic: with a catalog of `n` templates and `w`
//! workers, every worker `k` covers the index range
//! `[k*ceil(n/w), (k+1)*ceil(n/w))` clamped to `n`, so the slices cover the
//! catalog exactly once, with no overlap, whatever the divisibility. The
//! per-slice work is a verified function, so the jobs handed to a worker
//! pool compute exactly the batches stated here; `distribute` is the
//! sequential fan-in of all `|frames| * w` batches, and its result equals
//! running the engine over the whole catalog for every frame.

use crate::matching::{spec_matches, Item, Match, MATCH_THRESHOLD};
use crate::matching::get_uniq_ids;
use crate::raster::Raster;
use vstd::arithmetic::div_mod::{
    lemma_fundamental_div_mod, lemma_fundamental_div_mod_converse, lemma_mod_bound,
};
use vstd::prelude::*;

verus! {

/// Number of catalog indices each worker slice spans: the catalog size
/// divided by the worker count, rounded up.
pub open spec fn chunk_size(n: int, w: int) -> int {
    (n + w - 1) / w
}

/// First catalog index of worker `k`'s slice (clamped to the catalog end).
pub open spec fn slice_lo(n: int, w: int, k: int) -> int {
    if k * chunk_size(n, w) < n {
        k * chunk_size(n, w)
    } else {
        n
    }
}

/// One past the last catalog index of worker `k`'s slice (clamped).
pub open spec fn slice_hi(n: int, w: int, k: int) -> int {
    if (k + 1) * chunk_size(n, w) < n {
        (k + 1) * chunk_size(n, w)
    } else {
        n
    }
}

/// The worker whose slice holds catalog index `i`.
pub open spec fn owner(n: int, w: int, i: int) -> int {
    i / chunk_size(n, w)
}

/// Whether catalog index `i` falls in worker `k`'s slice.
pub open spec fn in_slice(n: int, w: int, k: int, i: int) -> bool {
    slice_lo(n, w, k) <= i < slice_hi(n, w, k)
}

/// The chunk size is nonnegative, positive for a nonempty catalog, and `w`
/// chunks reach the catalog end.
pub proof fn lemma_chunk_covers(n: int, w: int)
    requires
        n >= 0,
        w >= 1,
    ensures
        chunk_size(n, w) >= 0,
        n >= 1 ==> chunk_size(n, w) >= 1,
        n <= w * chunk_size(n, w),
{
    let c = chunk_size(n, w);
    lemma_fundamental_div_mod(n + w - 1, w);
    lemma_mod_bound(n + w - 1, w);
    assert(n <= w * c && c >= 0 && (n >= 1 ==> c >= 1)) by (nonlinear_arith)
        requires
            n + w - 1 == w * c + ((n + w - 1) % w),
            0 <= ((n + w - 1) % w) < w,
            n >= 0,
            w >= 1,
    ;
}

/// Every slice sits inside the catalog, with its start not past its end.
pub proof fn lemma_slice_bounds(n: int, w: int, k: int)
    requires
        n >= 0,
        w >= 1,
        k >= 0,
    ensures
        0 <= slice_lo(n, w, k) <= slice_hi(n, w, k) <= n,
        slice_lo(n, w, k + 1) == slice_hi(n, w, k),
{
    let c = chunk_size(n, w);
    lemma_chunk_covers(n, w);
    assert(0 <= k * c && k * c <= (k + 1) * c) by (nonlinear_arith)
        requires
            c >= 0,
            k >= 0,
    ;
}

/// The slice of the worker owning index `i` does hold `i`, and that worker
/// exists.
pub proof fn lemma_owner_covers(n: int, w: int, i: int)
    requires
        w >= 1,
        0 <= i < n,
    ensures
        in_slice(n, w, owner(n, w, i), i),
        0 <= owner(n, w, i) < w,
{
    let c = chunk_size(n, w);
    lemma_chunk_covers(n, w);
    let k = i / c;
    lemma_fundamental_div_mod(i, c);
    assert(k * c <= i < (k + 1) * c && 0 <= k) by (nonlinear_arith)
        requires
            i == c * k + (i % c),
            0 <= (i % c) < c,
            i >= 0,
            c >= 1,
    ;
    assert(k < w) by (nonlinear_arith)
        requires
            k * c <= i,
            i < n,
            n <= w * c,
            c >= 1,
    ;
    assert(owner(n, w, i) == k);
    assert(slice_lo(n, w, k) == k * c);
    assert(slice_lo(n, w, k) <= i);
    assert(i < slice_hi(n, w, k));
    assert(in_slice(n, w, k, i));
}

/// Partition coverage: every catalog index `i < n` lies in exactly one
/// worker slice, namely that of `owner(n, w, i)` — for every catalog size
/// `n` and worker count `w >= 1`, including `w > n` (empty slices) and `n`
/// not divisible by `w`.
pub proof fn lemma_partition_coverage(n: int, w: int)
    requires
        n >= 0,
        w >= 1,
    ensures
        forall|i: int|
            0 <= i < n ==> #[trigger] in_slice(n, w, owner(n, w, i), i) && 0 <= owner(n, w, i)
                < w,
        forall|i: int, k: int|
            0 <= i < n && 0 <= k < w && #[trigger] in_slice(n, w, k, i) ==> k == owner(n, w, i),
{
    let c = chunk_size(n, w);
    lemma_chunk_covers(n, w);
    assert forall|i: int| 0 <= i < n implies #[trigger] in_slice(n, w, owner(n, w, i), i) && 0
        <= owner(n, w, i) < w by {
        lemma_owner_covers(n, w, i);
    }
    assert forall|i: int, k: int|
        0 <= i < n && 0 <= k < w && #[trigger] in_slice(n, w, k, i) implies k == owner(
        n,
        w,
        i,
    ) by {
        assert(k * c <= i) by {
            if k * c >= n {
                assert(slice_lo(n, w, k) == n);
            }
        }
        assert(i < (k + 1) * c) by {
            if (k + 1) * c < n {
            } else {
                assert(slice_hi(n, w, k) == n);
            }
        }
        assert((k + 1) * c == k * c + c) by (nonlinear_arith);
        lemma_fundamental_div_mod_converse(i, c, k, i - k * c);
    }
}

/// Computes worker `k`'s slice `[lo, hi)` of a catalog of `n` templates.
pub fn worker_range(n: usize, w: usize, k: usize) -> (r: (usize, usize))
    requires
        w >= 1,
        k < w,
    ensures
        r.0 == slice_lo(n as int, w as int, k as int),
        r.1 == slice_hi(n as int, w as int, k as int),
        r.0 <= r.1 <= n,
{
    proof {
        lemma_chunk_covers(n as int, w as int);
        lemma_slice_bounds(n as int, w as int, k as int);
    }
    let chunk: usize = if n == 0 {
        0
    } else {
        let q = (n - 1) / w;
        proof {
            lemma_fundamental_div_mod((n - 1) as int, w as int);
            lemma_mod_bound((n - 1) as int, w as int);
            assert(0 <= q && q <= n - 1) by (nonlinear_arith)
                requires
                    (n - 1) as int == (w as int) * (q as int) + ((n - 1) as int % (w as int)),
                    0 <= (n - 1) as int % (w as int) < w,
                    w >= 1,
            ;
            assert((q as int + 1) * (w as int) == (w as int) * (q as int) + w)
                by (nonlinear_arith);
            lemma_fundamental_div_mod_converse(
                n + w - 1,
                w as int,
                q as int + 1,
                (n - 1) as int % (w as int),
            );
        }
        q + 1
    };
    let lo: usize = match k.checked_mul(chunk) {
        Some(v) => if v < n {
            v
        } else {
            n
        },
        None => {
            proof {
                assert(k * chunk >= n) by (nonlinear_arith)
                    requires
                        k * chunk > usize::MAX,
                        n <= usize::MAX,
                ;
            }
            n
        },
    };
    let hi: usize = match (k + 1).checked_mul(chunk) {
        Some(v) => if v < n {
            v
        } else {
            n
        },
        None => {
            proof {
                assert((k + 1) * chunk >= n) by (nonlinear_arith)
                    requires
                        (k + 1) * chunk > usize::MAX,
                        n <= usize::MAX,
                ;
            }
            n
        },
    };
    (lo, hi)
}

/// Runs the matching engine over worker `k`'s slice of the catalog on one
/// frame: this is exactly the job a pooled worker executes, and its result
/// is the worker's batch.
pub fn match_slice(frame: &Raster, items: &Vec<Item>, w: usize, k: usize) -> (r: Vec<Match>)
    requires
        frame.wf(),
        forall|i: int| 0 <= i < items.len() ==> (#[trigger] items[i]).wf(),
        w >= 1,
        k < w,
    ensures
        r@ == spec_matches(
            *frame,
            items@.subrange(
                slice_lo(items.len() as int, w as int, k as int),
                slice_hi(items.len() as int, w as int, k as int),
            ),
            MATCH_THRESHOLD,
        ),
{
    let (lo, hi) = worker_range(items.len(), w, k);
    let mut r: Vec<Match> = Vec::new();
    let mut i: usize = lo;
    proof {
        assert(items@.subrange(lo as int, lo as int) =~= Seq::<Item>::empty());
    }
    while i < hi
        invariant
            frame.wf(),
            forall|q: int| 0 <= q < items.len() ==> (#[trigger] items[q]).wf(),
            lo <= i <= hi,
            hi <= items.len(),
            r@ == spec_matches(*frame, items@.subrange(lo as int, i as int), MATCH_THRESHOLD),
        decreases hi - i,
    {
        let m = crate::matching::match_template(frame, &items[i], MATCH_THRESHOLD);
        proof {
            assert(items@.subrange(lo as int, i + 1).drop_last() =~= items@.subrange(
                lo as int,
                i as int,
            ));
            assert(items@.subrange(lo as int, i + 1).last() == items@[i as int]);
        }
        match m {
            Some(mm) => r.push(mm),
            None => (),
        }
        i = i + 1;
    }
    r
}

/// The concatenation of the batches of workers `0 .. k` on one frame.
pub open spec fn spec_worker_batches(f: Raster, items: Seq<Item>, w: int, k: int) -> Seq<Match>
    decreases k,
{
    if k <= 0 {
        Seq::empty()
    } else {
        spec_worker_batches(f, items, w, k - 1) + spec_matches(
            f,
            items.subrange(
                slice_lo(items.len() as int, w, k - 1),
                slice_hi(items.len() as int, w, k - 1),
            ),
            MATCH_THRESHOLD,
        )
    }
}

/// The concatenation of the full rounds of the first `n` frames.
pub open spec fn spec_distribute(frames: Seq<Raster>, items: Seq<Item>, w: int, n: int) -> Seq<
    Match,
>
    decreases n,
{
    if n <= 0 {
        Seq::empty()
    } else {
        spec_distribute(frames, items, w, n - 1) + spec_worker_batches(
            frames[n - 1],
            items,
            w,
            w,
        )
    }
}

/// The engine over the whole catalog, frame by frame.
pub open spec fn spec_all_matches(frames: Seq<Raster>, items: Seq<Item>, n: int) -> Seq<Match>
    decreases n,
{
    if n <= 0 {
        Seq::empty()
    } else {
        spec_all_matches(frames, items, n - 1) + spec_matches(
            frames[n - 1],
            items,
            MATCH_THRESHOLD,
        )
    }
}

/// The engine distributes over catalog concatenation: matching `a + b` is
/// matching `a` and then `b`.
pub proof fn lemma_matches_concat(f: Raster, a: Seq<Item>, b: Seq<Item>, t: u64)
    ensures
        spec_matches(f, a + b, t) == spec_matches(f, a, t) + spec_matches(f, b, t),
    decreases b.len(),
{
    if b.len() == 0 {
        assert(a + b =~= a);
        assert(spec_matches(f, a, t) + spec_matches(f, b, t) =~= spec_matches(f, a, t));
    } else {
        lemma_matches_concat(f, a, b.drop_last(), t);
        assert((a + b).drop_last() =~= a + b.drop_last());
        assert((a + b).last() == b.last());
        let tail = match crate::matching::spec_match_at(f, b.last(), t) {
            Some(m) => seq![m],
            None => Seq::<Match>::empty(),
        };
        assert(spec_matches(f, a + b, t) == spec_matches(f, a, t) + spec_matches(
            f,
            b.drop_last(),
            t,
        ) + tail);
        assert(spec_matches(f, a, t) + spec_matches(f, b.drop_last(), t) + tail =~= spec_matches(
            f,
            a,
            t,
        ) + (spec_matches(f, b.drop_last(), t) + tail));
    }
}

/// The first `k` worker batches together equal the engine's output over the
/// catalog prefix that those slices cover.
pub proof fn lemma_batches_prefix(f: Raster, items: Seq<Item>, w: int, k: int)
    requires
        w >= 1,
        0 <= k <= w,
    ensures
        spec_worker_batches(f, items, w, k) == spec_matches(
            f,
            items.subrange(0, slice_lo(items.len() as int, w, k)),
            MATCH_THRESHOLD,
        ),
    decreases k,
{
    let n = items.len() as int;
    lemma_chunk_covers(n, w);
    if k == 0 {
        assert(slice_lo(n, w, 0) == 0) by {
            assert(0 * chunk_size(n, w) == 0) by (nonlinear_arith);
        }
        assert(items.subrange(0, 0) =~= Seq::<Item>::empty());
    } else {
        lemma_batches_prefix(f, items, w, k - 1);
        lemma_slice_bounds(n, w, k - 1);
        let lo = slice_lo(n, w, k - 1);
        let hi = slice_hi(n, w, k - 1);
        lemma_matches_concat(
            f,
            items.subrange(0, lo),
            items.subrange(lo, hi),
            MATCH_THRESHOLD,
        );
        assert(items.subrange(0, lo) + items.subrange(lo, hi) =~= items.subrange(0, hi));
    }
}

/// All `w` worker batches together equal the engine's output over the whole
/// catalog: the partition loses nothing and adds nothing.
pub proof fn lemma_round_complete(f: Raster, items: Seq<Item>, w: int)
    requires
        w >= 1,
    ensures
        spec_worker_batches(f, items, w, w) == spec_matches(f, items, MATCH_THRESHOLD),
{
    let n = items.len() as int;
    lemma_chunk_covers(n, w);
    lemma_batches_prefix(f, items, w, w);
    assert(slice_lo(n, w, w) == n) by {
        if w * chunk_size(n, w) < n {
        }
    }
    assert(items.subrange(0, n) =~= items);
}

/// One full matching round: dispatches one job per worker per frame (here
/// run in order), collects all `|frames| * w` batches, and concatenates
/// them. The result equals the engine's output over every (frame, template)
/// pair of the round.
pub fn distribute(frames: &Vec<Raster>, items: &Vec<Item>, w: usize) -> (r: Vec<Match>)
    requires
        w >= 1,
        forall|i: int| 0 <= i < frames.len() ==> (#[trigger] frames[i]).wf(),
        forall|i: int| 0 <= i < items.len() ==> (#[trigger] items[i]).wf(),
    ensures
        r@ == spec_distribute(frames@, items@, w as int, frames.len() as int),
        r@ == spec_all_matches(frames@, items@, frames.len() as int),
{
    let mut r: Vec<Match> = Vec::new();
    let mut j: usize = 0;
    while j < frames.len()
        invariant
            w >= 1,
            forall|i: int| 0 <= i < frames.len() ==> (#[trigger] frames[i]).wf(),
            forall|i: int| 0 <= i < items.len() ==> (#[trigger] items[i]).wf(),
            j <= frames.len(),
            r@ == spec_distribute(frames@, items@, w as int, j as int),
            r@ == spec_all_matches(frames@, items@, j as int),
        decreases frames.len() - j,
    {
        let ghost round_start = r@;
        let mut k: usize = 0;
        while k < w
            invariant
                w >= 1,
                j < frames.len(),
                forall|i: int| 0 <= i < frames.len() ==> (#[trigger] frames[i]).wf(),
                forall|i: int| 0 <= i < items.len() ==> (#[trigger] items[i]).wf(),
                k <= w,
                r@ == round_start + spec_worker_batches(frames@[j as int], items@, w as int, k as int),
            decreases w - k,
        {
            let mut batch = match_slice(&frames[j], items, w, k);
            proof {
                assert(round_start + spec_worker_batches(
                    frames@[j as int],
                    items@,
                    w as int,
                    k as int,
                ) + batch@ =~= round_start + (spec_worker_batches(
                    frames@[j as int],
                    items@,
                    w as int,
                    k as int,
                ) + batch@));
            }
            r.append(&mut batch);
            k = k + 1;
        }
        proof {
            lemma_round_complete(frames@[j as int], items@, w as int);
        }
        j = j + 1;
    }
    r
}

/// The distributor and the plain frame-by-frame engine agree; stated here
/// once for callers that reason over either form.
pub proof fn lemma_distribute_is_all_matches(frames: Seq<Raster>, items: Seq<Item>, w: int, n: int)
    requires
        w >= 1,
        0 <= n <= frames.len(),
    ensures
        spec_distribute(frames, items, w, n) == spec_all_matches(frames, items, n),
    decreases n,
{
    if n > 0 {
        lemma_distribute_is_all_matches(frames, items, w, n - 1);
        lemma_round_complete(frames[n - 1], items, w);
    }
}

/// Runs one frame through the distributor with `w` workers and reduces the
/// round to the cycle's deduplicated, ascending id set: an id is detected
/// exactly when the engine accepts some template carrying it.
pub fn detect_cycle_ids(frame: Raster, items: &Vec<Item>, w: usize) -> (r: Vec<u32>)
    requires
        frame.wf(),
        forall|i: int| 0 <= i < items.len() ==> (#[trigger] items[i]).wf(),
        w >= 1,
    ensures
        forall|i: int, j: int| 0 <= i < j < r.len() ==> r[i] < r[j],
        forall|id: u32|
            r@.contains(id) <==> exists|k: int|
                0 <= k < spec_matches(frame, items@, MATCH_THRESHOLD).len() && spec_matches(
                    frame,
                    items@,
                    MATCH_THRESHOLD,
                )[k].id == id,
{
    let ghost f = frame;
    let mut frames: Vec<Raster> = Vec::new();
    frames.push(frame);
    let all = distribute(&frames, items, w);
    proof {
        lemma_round_complete(f, items@, w as int);
        assert(frames@[0] == f);
        assert(all@ == spec_all_matches(frames@, items@, 1));
        assert(spec_all_matches(frames@, items@, 0) =~= Seq::<Match>::empty());
        assert(Seq::<Match>::empty() + spec_matches(f, items@, MATCH_THRESHOLD) =~= spec_matches(
            f,
            items@,
            MATCH_THRESHOLD,
        ));
        assert(all@ == spec_matches(f, items@, MATCH_THRESHOLD));
    }
    get_uniq_ids(all)
}

} // verus!


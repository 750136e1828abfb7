//! The static split of an image's scanlines among render workers.
//!
//! Worker `k` of `n` renders the rows `y` with `(y + k) mod n == 0`. No two
//! workers share a row and every row has a worker, so the workers can write
//! into one raster without ever meeting at a pixel.

use vstd::prelude::*;
use vstd::arithmetic::div_mod::{
    lemma_add_mod_noop,
    lemma_mod_bound,
    lemma_mod_sub_multiples_vanish,
    lemma_small_mod,
};
use crate::pixelbuffer::{
    lemma_row_major_distinct,
    lemma_row_major_visits,
    offset,
    row_major,
    PixelIterator,
};

verus! {

/// Whether worker `worker` of `workers` renders row `row`: the sum of the two
/// is a multiple of `workers`. Zero has no multiple but itself.
pub open spec fn claims(row: nat, worker: nat, workers: nat) -> bool {
    if workers == 0 {
        row + worker == 0
    } else {
        (row + worker) % workers == 0
    }
}

/// The one worker among `workers` that renders row `row`.
pub open spec fn owner(row: nat, workers: nat) -> nat
    recommends
        workers > 0,
{
    ((workers - row % workers) % (workers as int)) as nat
}

/// The test that picks a worker's pixels out of a run of coordinates.
pub open spec fn claimed_by(worker: nat, workers: nat) -> spec_fn((usize, usize)) -> bool {
    |pixel: (usize, usize)| claims(pixel.1 as nat, worker, workers)
}

/// The pixels among `pixels` that worker `worker` of `workers` renders, in
/// the order in which `pixels` holds them.
pub open spec fn share(pixels: Seq<(usize, usize)>, worker: nat, workers: nat) -> Seq<
    (usize, usize),
> {
    pixels.filter(claimed_by(worker, workers))
}

/// The share of work that is done, in whole percent and rounded down; zero
/// where there is no work at all. A value too large for the result is
/// replaced by the largest that fits.
pub open spec fn percent(done: nat, total: nat) -> nat {
    if total == 0 {
        0
    } else if done * 100 / total > u32::MAX {
        u32::MAX as nat
    } else {
        done * 100 / total
    }
}

/// Decides whether worker `worker` of `workers` renders row `row`.
pub fn worker_claims(row: usize, worker: usize, workers: usize) -> (claimed: bool)
    ensures
        claimed == claims(row as nat, worker as nat, workers as nat),
{
    if workers == 0 {
        row == 0 && worker == 0
    } else {
        let a: usize = row % workers;
        let b: usize = worker % workers;
        proof {
            let n = workers as int;
            lemma_add_mod_noop(row as int, worker as int, n);
            if a + b < n {
                lemma_small_mod((a + b) as nat, workers as nat);
            } else {
                lemma_mod_sub_multiples_vanish(a + b, n);
                lemma_small_mod((a + b - n) as nat, workers as nat);
            }
        }
        if a == 0 {
            b == 0
        } else {
            b == workers - a
        }
    }
}

/// Collects the pixels that worker `worker` of `workers` renders, in the
/// order in which `pixels` hands them out.
pub fn worker_pixels(pixels: PixelIterator, worker: usize, workers: usize) -> (claimed: Vec<
    (usize, usize),
>)
    ensures
        claimed@ == share(pixels@, worker as nat, workers as nat),
{
    let ghost all = pixels@;
    let ghost test = claimed_by(worker as nat, workers as nat);
    let mut rest = pixels;
    let mut claimed: Vec<(usize, usize)> = Vec::new();
    loop
        invariant_except_break
            claimed@ + rest@.filter(test) == all.filter(test),
            test == claimed_by(worker as nat, workers as nat),
        ensures
            claimed@ == all.filter(test),
        decreases rest@.len(),
    {
        let ghost before = rest@;
        match rest.next() {
            None => {
                proof {
                    before.lemma_filter_len(test);
                    assert(claimed@ =~= claimed@ + before.filter(test));
                }
                break ;
            },
            Some(pixel) => {
                let ghost gathered = claimed@;
                if worker_claims(pixel.1, worker, workers) {
                    claimed.push(pixel);
                }
                proof {
                    assert(before =~= seq![pixel] + rest@);
                    rest@.lemma_filter_prepend(pixel, test);
                    assert(claimed@ + rest@.filter(test) =~= gathered + before.filter(test));
                }
            },
        }
    }
    claimed
}

/// The progress of a render in whole percent: `done` pixels out of `total`.
pub fn percent_done(done: usize, total: usize) -> (progress: u32)
    ensures
        progress == percent(done as nat, total as nat),
{
    if total == 0 {
        0
    } else {
        let scaled: u128 = (done as u128) * 100;
        let ratio: u128 = scaled / (total as u128);
        if ratio > u32::MAX as u128 {
            u32::MAX
        } else {
            ratio as u32
        }
    }
}

/// Every row has exactly one worker: `owner(row, workers)` renders it, and
/// no other worker does.
pub proof fn lemma_row_has_one_worker(row: nat, workers: nat)
    requires
        workers > 0,
    ensures
        owner(row, workers) < workers,
        claims(row, owner(row, workers), workers),
        forall|k: nat| k < workers && claims(row, k, workers) ==> k == owner(row, workers),
{
    let n = workers as int;
    let a = row as int % n;
    lemma_mod_bound(row as int, n);
    let k0 = owner(row, workers);
    if a == 0 {
        lemma_mod_sub_multiples_vanish(n, n);
        lemma_small_mod(0, workers);
    } else {
        lemma_small_mod((n - a) as nat, workers);
    }
    assert forall|k: nat| k < workers implies (claims(row, k, workers) <==> k == k0) by {
        lemma_add_mod_noop(row as int, k as int, n);
        lemma_small_mod(k, workers);
        if a + k < n {
            lemma_small_mod((a + k) as nat, workers);
        } else {
            lemma_mod_sub_multiples_vanish(a + k, n);
            lemma_small_mod((a + k - n) as nat, workers);
        }
    }
}

/// Filtering a run that holds nothing twice leaves a run that holds nothing
/// twice.
proof fn lemma_filter_keeps_distinct(
    pixels: Seq<(usize, usize)>,
    test: spec_fn((usize, usize)) -> bool,
)
    requires
        pixels.no_duplicates(),
    ensures
        pixels.filter(test).no_duplicates(),
    decreases pixels.len(),
{
    reveal(Seq::filter);
    if pixels.len() > 0 {
        let front = pixels.drop_last();
        let last = pixels.last();
        lemma_filter_keeps_distinct(front, test);
        if front.filter(test).contains(last) {
            front.lemma_filter_contains_rev(test, last);
            let j = choose|j: int| 0 <= j < front.len() && front[j] == last;
            assert(pixels[j] == pixels[pixels.len() - 1]);
        }
    }
}

/// A worker's share of an image holds only pixels of that image, and only
/// pixels of rows that the worker claims.
pub proof fn lemma_share_within_image(width: nat, height: nat, worker: nat, workers: nat)
    requires
        width * height <= usize::MAX,
    ensures
        forall|i: int|
            0 <= i < share(row_major(width, height), worker, workers).len() ==> {
                let pixel = #[trigger] share(row_major(width, height), worker, workers)[i];
                &&& pixel.0 < width
                &&& pixel.1 < height
                &&& claims(pixel.1 as nat, worker, workers)
            },
{
    let walk = row_major(width, height);
    let test = claimed_by(worker, workers);
    let mine = share(walk, worker, workers);
    lemma_row_major_distinct(width, height);
    assert forall|i: int| 0 <= i < mine.len() implies {
        let pixel = #[trigger] mine[i];
        &&& pixel.0 < width
        &&& pixel.1 < height
        &&& claims(pixel.1 as nat, worker, workers)
    } by {
        walk.lemma_filter_pred(test, i);
        assert(mine.contains(mine[i]));
        walk.lemma_filter_contains_rev(test, mine[i]);
        let j = choose|j: int| 0 <= j < walk.len() && walk[j] == mine[i];
        assert(walk[j].0 < width && walk[j].1 < height);
    }
}

/// The workers' shares of an image cover it exactly once: pixel `(x, y)`
/// stands in the share of the worker that owns row `y`, in no other worker's
/// share, and no share holds a pixel twice.
pub proof fn lemma_shares_cover_image_once(width: nat, height: nat, workers: nat, x: nat, y: nat)
    requires
        workers > 0,
        x < width,
        y < height,
        width * height <= usize::MAX,
    ensures
        owner(y, workers) < workers,
        share(row_major(width, height), owner(y, workers), workers).contains(
            (x as usize, y as usize),
        ),
        forall|k: nat|
            k < workers && k != owner(y, workers) ==> !(#[trigger] share(
                row_major(width, height),
                k,
                workers,
            )).contains((x as usize, y as usize)),
        forall|k: nat| (#[trigger] share(row_major(width, height), k, workers)).no_duplicates(),
{
    let walk = row_major(width, height);
    let pixel = (x as usize, y as usize);
    let mine = owner(y, workers);
    lemma_row_has_one_worker(y, workers);
    lemma_row_major_visits(width, height, x, y);
    lemma_row_major_distinct(width, height);
    let at = offset(x, y, width) as int;
    assert(y < height <= usize::MAX) by (nonlinear_arith)
        requires
            x < width,
            y < height,
            width * height <= usize::MAX,
    ;
    walk.lemma_filter_contains(claimed_by(mine, workers), at);
    assert forall|k: nat| k < workers && k != mine implies !(#[trigger] share(
        walk,
        k,
        workers,
    )).contains(pixel) by {
        let theirs = share(walk, k, workers);
        if theirs.contains(pixel) {
            let j = choose|j: int| 0 <= j < theirs.len() && theirs[j] == pixel;
            walk.lemma_filter_pred(claimed_by(k, workers), j);
            assert(claims(y, k, workers));
        }
    }
    assert forall|k: nat| (#[trigger] share(walk, k, workers)).no_duplicates() by {
        lemma_filter_keeps_distinct(walk, claimed_by(k, workers));
    }
}

} // verus!

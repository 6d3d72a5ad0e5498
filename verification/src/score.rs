//! Scoring of prefill candidates, in exact arithmetic.
//!
//! A candidate with `outstanding` requests in flight and `cached` leading
//! tokens of the prompt in its cache scores
//! `task_queue / (1 + outstanding) + num_of_cache_token * cached / 100`.
//! Scores are compared as fractions, so no rounding decides a selection.

use vstd::prelude::*;

verus! {

/// The weights of the two terms of a score.
#[derive(Clone, Copy, Debug, PartialEq, Eq, Structural)]
pub struct ScoreWeight {
    /// Weight of the load term.
    pub task_queue: u32,
    /// Weight of the cache term.
    pub num_of_cache_token: u32,
}

/// The score's numerator over [`score_den`].
pub open spec fn score_num(weight: ScoreWeight, outstanding: nat, cached: nat) -> int {
    (100 * weight.task_queue + weight.num_of_cache_token * cached * (1 + outstanding)) as int
}

/// The score's denominator: positive for every load.
pub open spec fn score_den(outstanding: nat) -> int {
    (100 * (1 + outstanding)) as int
}

/// The first candidate's score is strictly greater than the second's.
pub open spec fn scores_higher(
    weight: ScoreWeight,
    outstanding_a: nat,
    cached_a: nat,
    outstanding_b: nat,
    cached_b: nat,
) -> bool {
    score_num(weight, outstanding_a, cached_a) * score_den(outstanding_b) > score_num(
        weight,
        outstanding_b,
        cached_b,
    ) * score_den(outstanding_a)
}

/// By how much the first score exceeds the second, times
/// `(1 + outstanding_a) * (1 + outstanding_b) * 100`: the load term's part
/// plus the cache term's part.
spec fn lead(
    weight: ScoreWeight,
    outstanding_a: nat,
    cached_a: nat,
    outstanding_b: nat,
    cached_b: nat,
) -> int {
    100 * weight.task_queue * (outstanding_b - outstanding_a) + weight.num_of_cache_token * (
    cached_a - cached_b) * ((1 + outstanding_a) * (1 + outstanding_b))
}

proof fn lemma_lead(
    weight: ScoreWeight,
    outstanding_a: nat,
    cached_a: nat,
    outstanding_b: nat,
    cached_b: nat,
)
    ensures
        scores_higher(weight, outstanding_a, cached_a, outstanding_b, cached_b) == (lead(
            weight,
            outstanding_a,
            cached_a,
            outstanding_b,
            cached_b,
        ) > 0),
{
    let wq = weight.task_queue as int;
    let wc = weight.num_of_cache_token as int;
    let oa = outstanding_a as int;
    let ob = outstanding_b as int;
    let ca = cached_a as int;
    let cb = cached_b as int;
    let la = 1 + oa;
    let lb = 1 + ob;
    let both = la * lb;
    let xa = wc * ca;
    let xb = wc * cb;
    assert((100 * wq + xa * la) * (100 * lb) == 10000 * wq * lb + 100 * (xa * both))
        by (nonlinear_arith)
        requires
            both == la * lb,
    ;
    assert((100 * wq + xb * lb) * (100 * la) == 10000 * wq * la + 100 * (xb * both))
        by (nonlinear_arith)
        requires
            both == la * lb,
    ;
    assert(wc * (ca - cb) * both == xa * both - xb * both) by (nonlinear_arith)
        requires
            xa == wc * ca,
            xb == wc * cb,
    ;
    assert(10000 * wq * lb - 10000 * wq * la == 100 * (100 * wq * (ob - oa))) by (nonlinear_arith)
        requires
            la == 1 + oa,
            lb == 1 + ob,
    ;
}

/// Scores are ordered: a candidate that scores higher than a second one
/// scores higher than every candidate that does not score higher than the
/// second.
pub proof fn scores_are_ordered(
    weight: ScoreWeight,
    outstanding_a: nat,
    cached_a: nat,
    outstanding_b: nat,
    cached_b: nat,
    outstanding_c: nat,
    cached_c: nat,
)
    requires
        scores_higher(weight, outstanding_a, cached_a, outstanding_b, cached_b),
        !scores_higher(weight, outstanding_c, cached_c, outstanding_b, cached_b),
    ensures
        scores_higher(weight, outstanding_a, cached_a, outstanding_c, cached_c),
{
    let na = score_num(weight, outstanding_a, cached_a);
    let nb = score_num(weight, outstanding_b, cached_b);
    let nc = score_num(weight, outstanding_c, cached_c);
    let da = score_den(outstanding_a);
    let db = score_den(outstanding_b);
    let dc = score_den(outstanding_c);
    assert(na * db * dc > nb * da * dc) by (nonlinear_arith)
        requires
            na * db > nb * da,
            dc > 0,
    ;
    assert(nb * dc * da >= nc * db * da) by (nonlinear_arith)
        requires
            nc * db <= nb * dc,
            da > 0,
    ;
    assert(na * dc > nc * da) by (nonlinear_arith)
        requires
            na * db * dc > nb * da * dc,
            nb * dc * da >= nc * db * da,
            db > 0,
    ;
}

/// The product of three factors, where it fits.
fn product(x: u128, y: u128, z: u128) -> (fits: Option<u128>)
    requires
        y >= 1,
        z >= 1,
    ensures
        fits == if x * (y * z) <= u128::MAX {
            Some((x * (y * z)) as u128)
        } else {
            None::<u128>
        },
{
    assert(x * (y * z) == (x * y) * z) by (nonlinear_arith);
    match x.checked_mul(y) {
        None => {
            assert((x * y) * z >= x * y) by (nonlinear_arith)
                requires
                    z >= 1,
                    x * y >= 0,
            ;
            None
        },
        Some(xy) => xy.checked_mul(z),
    }
}

/// Whether the first candidate's score is strictly greater than the second's.
pub fn beats(
    weight: &ScoreWeight,
    outstanding_a: usize,
    cached_a: usize,
    outstanding_b: usize,
    cached_b: usize,
) -> (higher: bool)
    ensures
        higher == scores_higher(
            *weight,
            outstanding_a as nat,
            cached_a as nat,
            outstanding_b as nat,
            cached_b as nat,
        ),
{
    proof {
        lemma_lead(
            *weight,
            outstanding_a as nat,
            cached_a as nat,
            outstanding_b as nat,
            cached_b as nat,
        );
    }
    let ghost wq = weight.task_queue as int;
    let ghost wc = weight.num_of_cache_token as int;
    let ghost oa = outstanding_a as int;
    let ghost ob = outstanding_b as int;
    let ghost ca = cached_a as int;
    let ghost cb = cached_b as int;
    let ghost loads = (1 + oa) * (1 + ob);
    let load_a: u128 = 1 + outstanding_a as u128;
    let load_b: u128 = 1 + outstanding_b as u128;
    assert(loads >= 1) by (nonlinear_arith)
        requires
            loads == (1 + oa) * (1 + ob),
            oa >= 0,
            ob >= 0,
    ;
    if cached_a >= cached_b {
        let more: u128 = (cached_a - cached_b) as u128;
        assert(wc * more <= 0xffff_ffff * 0xffff_ffff_ffff_ffff) by (nonlinear_arith)
            requires
                0 <= wc <= 0xffff_ffff,
                0 <= more <= 0xffff_ffff_ffff_ffff,
        ;
        let cache_part: u128 = weight.num_of_cache_token as u128 * more;
        if outstanding_b >= outstanding_a {
            let fewer: u128 = (outstanding_b - outstanding_a) as u128;
            assert((100 * wq * fewer > 0) == (wq > 0 && fewer > 0)) by (nonlinear_arith)
                requires
                    wq >= 0,
                    fewer >= 0,
            ;
            assert((wc * more * loads > 0) == (wc > 0 && more > 0)) by (nonlinear_arith)
                requires
                    wc >= 0,
                    more >= 0,
                    loads >= 1,
            ;
            assert(100 * wq * fewer >= 0) by (nonlinear_arith)
                requires
                    wq >= 0,
                    fewer >= 0,
            ;
            assert(wc * more * loads >= 0) by (nonlinear_arith)
                requires
                    wc >= 0,
                    more >= 0,
                    loads >= 1,
            ;
            (weight.task_queue > 0 && fewer > 0) || (weight.num_of_cache_token > 0 && more > 0)
        } else {
            let extra: u128 = (outstanding_a - outstanding_b) as u128;
            assert(100 * wq * extra <= 100 * 0xffff_ffff * 0xffff_ffff_ffff_ffff)
                by (nonlinear_arith)
                requires
                    0 <= wq <= 0xffff_ffff,
                    0 <= extra <= 0xffff_ffff_ffff_ffff,
            ;
            let load_part: u128 = 100 * (weight.task_queue as u128) * extra;
            assert(100 * wq * (ob - oa) == -(100 * wq * extra)) by (nonlinear_arith)
                requires
                    extra == oa - ob,
            ;
            assert(wc * more * loads == cache_part * (load_a * load_b)) by (nonlinear_arith)
                requires
                    cache_part == wc * more,
                    loads == (1 + oa) * (1 + ob),
                    load_a == 1 + oa,
                    load_b == 1 + ob,
            ;
            match product(cache_part, load_a, load_b) {
                None => true,
                Some(gain) => gain > load_part,
            }
        }
    } else {
        let less: u128 = (cached_b - cached_a) as u128;
        assert(wc * less <= 0xffff_ffff * 0xffff_ffff_ffff_ffff) by (nonlinear_arith)
            requires
                0 <= wc <= 0xffff_ffff,
                0 <= less <= 0xffff_ffff_ffff_ffff,
        ;
        let cache_part: u128 = weight.num_of_cache_token as u128 * less;
        assert(wc * (ca - cb) * loads == -(cache_part * (load_a * load_b))) by (nonlinear_arith)
            requires
                cache_part == wc * less,
                less == cb - ca,
                loads == (1 + oa) * (1 + ob),
                load_a == 1 + oa,
                load_b == 1 + ob,
        ;
        assert(cache_part * (load_a * load_b) >= 0) by (nonlinear_arith)
            requires
                cache_part >= 0,
                load_a >= 1,
                load_b >= 1,
        ;
        if outstanding_b <= outstanding_a {
            assert(100 * wq * (ob - oa) <= 0) by (nonlinear_arith)
                requires
                    wq >= 0,
                    ob <= oa,
            ;
            false
        } else {
            let fewer: u128 = (outstanding_b - outstanding_a) as u128;
            assert(100 * wq * fewer <= 100 * 0xffff_ffff * 0xffff_ffff_ffff_ffff)
                by (nonlinear_arith)
                requires
                    0 <= wq <= 0xffff_ffff,
                    0 <= fewer <= 0xffff_ffff_ffff_ffff,
            ;
            let load_part: u128 = 100 * (weight.task_queue as u128) * fewer;
            assert(100 * wq * (ob - oa) == 100 * wq * fewer) by (nonlinear_arith)
                requires
                    fewer == ob - oa,
            ;
            match product(cache_part, load_a, load_b) {
                None => false,
                Some(loss) => load_part > loss,
            }
        }
    }
}

} // verus!

//! Density-gated point sampling.
//!
//! A block with at least as many points as wanted is sampled without
//! replacement. A block with fewer is padded with points drawn with
//! replacement, whose coordinates may be jittered. The draws come from a
//! generator seeded by the block ID; which numbers it gives depends on the
//! platform. A sample is fixed by what the generator answers, call after call.

use rand::rngs::SmallRng;
use rand::{Rng, SeedableRng};
use vstd::prelude::*;

use crate::ieee::{law_clamp_bounds, law_triple_is_farther_from_zero, Real64};
use crate::ordering::swapped;
use crate::preprocessing::lite_point::{IndexedPoint, LitePoint};

verus! {

/// The generator `rand::rngs::SmallRng`, of which nothing is known inside.
#[verifier::external_type_specification]
#[verifier::external_body]
pub struct ExSmallRng(SmallRng);

/// `SmallRng::seed_from_u64`: a generator for this seed. Its numbers are fixed
/// by the seed on one platform and differ between platforms, so nothing is
/// said of it.
#[verifier::external_body]
fn seeded(seed: u64) -> (r: SmallRng) {
    SmallRng::seed_from_u64(seed)
}

/// `Rng::random_range` over a half-open range, which is not empty: a number in
/// that range, and the generator as the draw leaves it. Which number it is
/// rests on the generator, inside which nothing is known.
#[verifier::external_body]
fn draw(rng: SmallRng, lo: usize, hi: usize) -> (r: (SmallRng, usize))
    requires
        lo < hi,
    ensures
        lo <= r.1 < hi,
{
    let mut rng = rng;
    let number = rng.random_range(lo..hi);
    (rng, number)
}

/// `rng` is a generator that seeding with `seed` gives.
pub closed spec fn seeds(seed: u64, rng: SmallRng) -> bool {
    call_ensures(seeded, (seed,), rng)
}

/// Drawing from `lo..hi` with the generator `before` gives `number` and leaves
/// the generator `after`.
pub closed spec fn draws(
    before: SmallRng,
    lo: usize,
    hi: usize,
    after: SmallRng,
    number: usize,
) -> bool {
    call_ensures(draw, (before, lo, hi), (after, number))
}

/// A number that is drawn lies in its range.
pub proof fn law_draw_is_in_range(
    before: SmallRng,
    lo: usize,
    hi: usize,
    after: SmallRng,
    number: usize,
)
    requires
        draws(before, lo, hi, after, number),
    ensures
        lo <= number < hi,
{
}

// ── Sampling without replacement ────────────────────────────────────────────

/// The numbers from 0 to `n - 1`.
pub open spec fn identity(n: nat) -> Seq<usize> {
    Seq::new(n, |i: int| i as usize)
}

/// `s` after the first `k` swaps: the `i`-th swap exchanges place `i` with the
/// place drawn for it.
pub open spec fn swaps(s: Seq<usize>, draws: Seq<usize>, k: int) -> Seq<usize>
    decreases k,
{
    if k <= 0 {
        s
    } else {
        swapped(swaps(s, draws, k - 1), k - 1, draws[k - 1] as int)
    }
}

/// The sample that the draws pick out of `n` points: one point for each draw.
pub open spec fn picked(n: nat, draws: Seq<usize>) -> Seq<usize> {
    swaps(identity(n), draws, draws.len() as int).take(draws.len() as int)
}

/// Whether each draw lies between its own place and the end.
pub open spec fn draws_fit(n: nat, draws: Seq<usize>) -> bool {
    draws.len() <= n && forall|i: int|
        0 <= i < draws.len() ==> i <= (#[trigger] draws[i]) < n
}

proof fn lemma_swaps(n: nat, draws: Seq<usize>, k: int)
    requires
        n <= usize::MAX,
        draws_fit(n, draws),
        0 <= k <= draws.len(),
    ensures
        swaps(identity(n), draws, k).len() == n,
        swaps(identity(n), draws, k).no_duplicates(),
        forall|i: int| 0 <= i < n ==> (#[trigger] swaps(identity(n), draws, k)[i]) < n,
    decreases k,
{
    if k > 0 {
        lemma_swaps(n, draws, k - 1);
        let s = swaps(identity(n), draws, k - 1);
        let t = swaps(identity(n), draws, k);
        assert(draws[k - 1] < n);
        assert forall|i: int, j: int| 0 <= i < t.len() && 0 <= j < t.len() && i != j implies t[i]
            != t[j] by {}
    }
}

/// Sampling without replacement takes distinct points of the block.
pub proof fn law_sample_is_distinct(n: nat, draws: Seq<usize>)
    requires
        n <= usize::MAX,
        draws_fit(n, draws),
    ensures
        picked(n, draws).len() == draws.len(),
        picked(n, draws).no_duplicates(),
        forall|i: int| 0 <= i < draws.len() ==> (#[trigger] picked(n, draws)[i]) < n,
{
    lemma_swaps(n, draws, draws.len() as int);
    let s = swaps(identity(n), draws, draws.len() as int);
    assert forall|i: int, j: int|
        0 <= i < draws.len() && 0 <= j < draws.len() && i != j implies picked(n, draws)[i]
        != picked(n, draws)[j] by {
        assert(s[i] != s[j]);
    }
}

/// The sample that the draws pick out of `n` points, by a partial
/// Fisher-Yates shuffle.
pub fn pick(n: usize, draws: &Vec<usize>) -> (r: Vec<usize>)
    requires
        draws_fit(n as nat, draws@),
    ensures
        r@ == picked(n as nat, draws@),
{
    let mut all: Vec<usize> = Vec::new();
    let mut i: usize = 0;
    while i < n
        invariant
            i <= n,
            all@ =~= identity(i as nat),
        decreases n - i,
    {
        all.push(i);
        i = i + 1;
    }
    let mut k: usize = 0;
    while k < draws.len()
        invariant
            k <= draws@.len(),
            draws_fit(n as nat, draws@),
            all@.len() == n,
            all@ == swaps(identity(n as nat), draws@, k as int),
        decreases draws@.len() - k,
    {
        let j: usize = draws[k];
        assert(k <= draws@[k as int] < n);
        let a: usize = all[k];
        let b: usize = all[j];
        all.set(k, b);
        all.set(j, a);
        assert(all@ =~= swaps(identity(n as nat), draws@, k + 1));
        k = k + 1;
    }
    let mut out: Vec<usize> = Vec::new();
    let mut m: usize = 0;
    while m < draws.len()
        invariant
            m <= draws@.len() <= all@.len(),
            out@ =~= all@.take(m as int),
        decreases draws@.len() - m,
    {
        out.push(all[m]);
        m = m + 1;
    }
    out
}

/// The numbers come from the generators `states`, one after the other: the
/// `i`-th from `i..n`, each generator being what the draw before has left.
pub open spec fn drawn_through(states: Seq<SmallRng>, n: nat, numbers: Seq<usize>) -> bool {
    &&& states.len() == numbers.len() + 1
    &&& forall|i: int|
        0 <= i < numbers.len() ==> draws(
            states[i],
            i as usize,
            n as usize,
            states[i + 1],
            #[trigger] numbers[i],
        )
}

/// `positions` are the `k` of `n` points that draws with the generator `rng`
/// pick.
pub open spec fn picked_with(rng: SmallRng, n: nat, k: nat, positions: Seq<usize>) -> bool {
    exists|states: Seq<SmallRng>, numbers: Seq<usize>| #[trigger]
        drawn_through(states, n, numbers) && states[0] == rng && numbers.len() == k && positions
            == picked(n, numbers)
}

proof fn lemma_drawn_fit(states: Seq<SmallRng>, n: nat, numbers: Seq<usize>)
    requires
        drawn_through(states, n, numbers),
        numbers.len() <= n <= usize::MAX,
    ensures
        draws_fit(n, numbers),
{
    assert forall|i: int| 0 <= i < numbers.len() implies i <= (#[trigger] numbers[i]) < n by {
        law_draw_is_in_range(states[i], i as usize, n as usize, states[i + 1], numbers[i]);
    }
}

proof fn lemma_picked_with(rng: SmallRng, n: nat, k: nat, positions: Seq<usize>)
    requires
        picked_with(rng, n, k, positions),
        k <= n <= usize::MAX,
    ensures
        picks(positions, n, k),
{
    let (states, numbers) = choose|states: Seq<SmallRng>, numbers: Seq<usize>| #[trigger]
        drawn_through(states, n, numbers) && states[0] == rng && numbers.len() == k && positions
            == picked(n, numbers);
    lemma_drawn_fit(states, n, numbers);
    law_sample_is_distinct(n, numbers);
}

/// Draws `k` distinct positions below `n`.
fn draw_distinct(n: usize, k: usize, rng: SmallRng) -> (r: Vec<usize>)
    requires
        k <= n,
    ensures
        picked_with(rng, n as nat, k as nat, r@),
        picks(r@, n as nat, k as nat),
{
    let mut numbers: Vec<usize> = Vec::new();
    let ghost mut states: Seq<SmallRng> = seq![rng];
    let mut state = rng;
    let mut i: usize = 0;
    while i < k
        invariant
            i <= k <= n,
            numbers@.len() == i,
            states[0] == rng,
            states.last() == state,
            drawn_through(states, n as nat, numbers@),
        decreases k - i,
    {
        let ghost states0 = states;
        let ghost numbers0 = numbers@;
        let (after, number) = draw(state, i, n);
        numbers.push(number);
        proof {
            assert(draws(state, i, n, after, number));
            states = states.push(after);
            assert forall|j: int| 0 <= j < numbers@.len() implies draws(
                states[j],
                j as usize,
                n,
                states[j + 1],
                #[trigger] numbers@[j],
            ) by {
                if j < i {
                    assert(numbers0[j] == numbers@[j]);
                    assert(states[j] == states0[j] && states[j + 1] == states0[j + 1]);
                }
            }
        }
        state = after;
        i = i + 1;
    }
    proof {
        lemma_drawn_fit(states, n as nat, numbers@);
        law_sample_is_distinct(n as nat, numbers@);
    }
    pick(n, &numbers)
}

// ── Resampling a block ──────────────────────────────────────────────────────

/// The points at these positions.
pub open spec fn points_at(pts: Seq<LitePoint>, positions: Seq<usize>) -> Seq<LitePoint> {
    positions.map_values(|i: usize| pts[i as int])
}

/// The offset of a coordinate that the generator `before` gives: what `gauss`
/// gives for the standard deviation, clamped to three deviations on either
/// side; zero, and no draw, where the deviation is not positive.
pub open spec fn offset_drawn<G: Fn(SmallRng, Real64) -> (SmallRng, Real64)>(
    gauss: G,
    sigma: Real64,
    before: SmallRng,
    after: SmallRng,
    offset: Real64,
) -> bool {
    if sigma.at_most(Real64 { bits: 0 }) {
        after == before && offset == (Real64 { bits: 0 })
    } else {
        exists|raw: Real64| #[trigger]
            call_ensures(gauss, (before, sigma), (after, raw)) && offset == raw.clamped(
                sigma.tripled(),
            )
    }
}

/// The offset of a coordinate, normally distributed with the standard deviation
/// `sigma` and clipped at three deviations. `gauss` gives it before clipping.
pub fn jitter_offset<G: Fn(SmallRng, Real64) -> (SmallRng, Real64)>(
    rng: SmallRng,
    sigma: Real64,
    gauss: &G,
) -> (r: (SmallRng, Real64))
    requires
        !sigma.nan(),
        forall|g: SmallRng, s: Real64| #[trigger] call_requires(*gauss, (g, s)),
    ensures
        offset_drawn(*gauss, sigma, rng, r.0, r.1),
{
    if sigma.le(Real64 { bits: 0 }) {
        return (rng, Real64 { bits: 0 });
    }
    let (after, raw) = gauss(rng, sigma);
    (after, raw.clamp(sigma.triple()))
}

/// Where `gauss` gives no NaN, an offset is never farther from zero than three
/// standard deviations.
pub proof fn law_offset_within_three_deviations<
    G: Fn(SmallRng, Real64) -> (SmallRng, Real64),
>(gauss: G, sigma: Real64, before: SmallRng, after: SmallRng, offset: Real64)
    requires
        !sigma.nan(),
        offset_drawn(gauss, sigma, before, after, offset),
        forall|g: SmallRng, h: SmallRng, raw: Real64| #[trigger]
            call_ensures(gauss, (g, sigma), (h, raw)) ==> !raw.nan(),
    ensures
        !offset.nan(),
        offset.magnitude() <= sigma.tripled().magnitude(),
{
    law_triple_is_farther_from_zero(sigma);
    if !sigma.at_most(Real64 { bits: 0 }) {
        let raw = choose|raw: Real64| #[trigger]
            call_ensures(gauss, (before, sigma), (after, raw)) && offset == raw.clamped(
                sigma.tripled(),
            );
        law_clamp_bounds(raw, sigma.tripled());
    }
}

/// `p` is `q` with its coordinates moved by these three offsets, which come one
/// after the other from the generators `before`, `g1` and `g2`.
pub open spec fn moved_by<
    G: Fn(SmallRng, Real64) -> (SmallRng, Real64),
    A: Fn(Real64, Real64) -> Real64,
>(
    gauss: G,
    shift: A,
    sigma: Real64,
    before: SmallRng,
    g1: SmallRng,
    g2: SmallRng,
    after: SmallRng,
    offsets: (Real64, Real64, Real64),
    q: LitePoint,
    p: LitePoint,
) -> bool {
    &&& offset_drawn(gauss, sigma, before, g1, offsets.0)
    &&& offset_drawn(gauss, sigma, g1, g2, offsets.1)
    &&& offset_drawn(gauss, sigma, g2, after, offsets.2)
    &&& call_ensures(shift, (q.x, offsets.0), p.x)
    &&& call_ensures(shift, (q.y, offsets.1), p.y)
    &&& call_ensures(shift, (q.z, offsets.2), p.z)
    &&& p == (LitePoint { x: p.x, y: p.y, z: p.z, ..q })
}

/// One padding point: the generator `before` draws the position `d`, and `p` is
/// the point there, moved where the standard deviation is positive.
pub open spec fn pad_step<
    G: Fn(SmallRng, Real64) -> (SmallRng, Real64),
    A: Fn(Real64, Real64) -> Real64,
>(
    pts: Seq<LitePoint>,
    sigma: Real64,
    gauss: G,
    shift: A,
    before: SmallRng,
    after: SmallRng,
    d: usize,
    p: LitePoint,
) -> bool {
    exists|drawn: SmallRng| #[trigger]
        draws(before, 0, pts.len() as usize, drawn, d) && if sigma.positive() {
            exists|g1: SmallRng, g2: SmallRng, offsets: (Real64, Real64, Real64)| #[trigger]
                moved_by(gauss, shift, sigma, drawn, g1, g2, after, offsets, pts[d as int], p)
        } else {
            after == drawn && p == pts[d as int]
        }
}

/// The block's own points in their order, then padding points that come from
/// the generators `states`, one after the other.
pub open spec fn padded_through<
    G: Fn(SmallRng, Real64) -> (SmallRng, Real64),
    A: Fn(Real64, Real64) -> Real64,
>(
    states: Seq<SmallRng>,
    pts: Seq<LitePoint>,
    sigma: Real64,
    gauss: G,
    shift: A,
    sampled: Seq<LitePoint>,
    positions: Seq<usize>,
) -> bool {
    let n = pts.len() as int;
    &&& sampled.len() == positions.len()
    &&& states.len() == sampled.len() - n + 1
    &&& forall|i: int| 0 <= i < n ==> #[trigger] positions[i] == i && sampled[i] == pts[i]
    &&& forall|i: int|
        n <= i < sampled.len() ==> pad_step(
            pts,
            sigma,
            gauss,
            shift,
            states[i - n],
            states[i - n + 1],
            positions[i],
            #[trigger] sampled[i],
        )
}

/// The sample of `pts` with `target` rows that the generator `rng` makes.
pub open spec fn sampled_with<
    G: Fn(SmallRng, Real64) -> (SmallRng, Real64),
    A: Fn(Real64, Real64) -> Real64,
>(
    rng: SmallRng,
    pts: Seq<LitePoint>,
    target: nat,
    sigma: Real64,
    gauss: G,
    shift: A,
    sampled: Seq<LitePoint>,
    positions: Seq<usize>,
) -> bool {
    if pts.len() >= target {
        picked_with(rng, pts.len(), target, positions) && sampled == points_at(pts, positions)
    } else {
        exists|states: Seq<SmallRng>| #[trigger]
            padded_through(states, pts, sigma, gauss, shift, sampled, positions) && states[0] == rng
                && sampled.len() == target
    }
}

/// What holds of every sample of `pts` with `target` rows for this seed:
/// `positions` are those of the rows' points.
pub open spec fn is_sample<
    G: Fn(SmallRng, Real64) -> (SmallRng, Real64),
    A: Fn(Real64, Real64) -> Real64,
>(
    pts: Seq<LitePoint>,
    target: nat,
    seed: u64,
    sigma: Real64,
    gauss: G,
    shift: A,
    sampled: Seq<LitePoint>,
    positions: Seq<usize>,
    oversampled: bool,
) -> bool {
    if pts.len() == 0 || target == 0 {
        sampled.len() == 0 && positions.len() == 0 && !oversampled
    } else {
        &&& oversampled == (pts.len() < target)
        &&& exists|rng: SmallRng| #[trigger]
            seeds(seed, rng) && sampled_with(
                rng,
                pts,
                target,
                sigma,
                gauss,
                shift,
                sampled,
                positions,
            )
    }
}

proof fn lemma_padded<
    G: Fn(SmallRng, Real64) -> (SmallRng, Real64),
    A: Fn(Real64, Real64) -> Real64,
>(
    states: Seq<SmallRng>,
    pts: Seq<LitePoint>,
    sigma: Real64,
    gauss: G,
    shift: A,
    sampled: Seq<LitePoint>,
    positions: Seq<usize>,
    i: int,
)
    requires
        padded_through(states, pts, sigma, gauss, shift, sampled, positions),
        pts.len() <= usize::MAX,
        0 <= i < sampled.len(),
    ensures
        positions[i] < pts.len(),
        i >= pts.len() ==> {
            let q = pts[positions[i] as int];
            let p = sampled[i];
            &&& !sigma.positive() ==> p == q
            &&& p == (LitePoint { x: p.x, y: p.y, z: p.z, ..q })
        },
{
    let n = pts.len() as int;
    if i >= n {
        let before = states[i - n];
        let after = states[i - n + 1];
        assert(pad_step(pts, sigma, gauss, shift, before, after, positions[i], sampled[i]));
        let drawn = choose|drawn: SmallRng| #[trigger]
            draws(before, 0, n as usize, drawn, positions[i]) && if sigma.positive() {
                exists|g1: SmallRng, g2: SmallRng, offsets: (Real64, Real64, Real64)| #[trigger]
                    moved_by(
                        gauss,
                        shift,
                        sigma,
                        drawn,
                        g1,
                        g2,
                        after,
                        offsets,
                        pts[positions[i] as int],
                        sampled[i],
                    )
            } else {
                after == drawn && sampled[i] == pts[positions[i] as int]
            };
        law_draw_is_in_range(before, 0, n as usize, drawn, positions[i]);
    } else {
        assert(positions[i] == i && sampled[i] == pts[i]);
    }
}

/// A sample of a block that has points is as large as asked for. Each row is a
/// point of the block: distinct points where the block has enough of them;
/// otherwise all its points, then repeated ones, of which only the coordinates
/// may differ, and these only where the standard deviation is positive.
pub proof fn law_sample_is_of_the_block<
    G: Fn(SmallRng, Real64) -> (SmallRng, Real64),
    A: Fn(Real64, Real64) -> Real64,
>(
    pts: Seq<LitePoint>,
    target: nat,
    seed: u64,
    sigma: Real64,
    gauss: G,
    shift: A,
    sampled: Seq<LitePoint>,
    positions: Seq<usize>,
    oversampled: bool,
)
    requires
        is_sample(pts, target, seed, sigma, gauss, shift, sampled, positions, oversampled),
        0 < pts.len() <= usize::MAX,
    ensures
        sampled.len() == target,
        positions.len() == target,
        oversampled == (pts.len() < target),
        forall|i: int| 0 <= i < target ==> (#[trigger] positions[i]) < pts.len(),
        !oversampled ==> positions.no_duplicates() && sampled == points_at(pts, positions),
        oversampled ==> forall|i: int|
            0 <= i < pts.len() ==> #[trigger] positions[i] == i && sampled[i] == pts[i],
        oversampled ==> forall|i: int|
            pts.len() <= i < target ==> {
                let q = pts[positions[i] as int];
                let p = #[trigger] sampled[i];
                &&& !sigma.positive() ==> p == q
                &&& p == (LitePoint { x: p.x, y: p.y, z: p.z, ..q })
            },
{
    if target > 0 {
        let rng = choose|rng: SmallRng| #[trigger]
            seeds(seed, rng) && sampled_with(
                rng,
                pts,
                target,
                sigma,
                gauss,
                shift,
                sampled,
                positions,
            );
        if pts.len() >= target {
            lemma_picked_with(rng, pts.len(), target, positions);
        } else {
            let states = choose|states: Seq<SmallRng>| #[trigger]
                padded_through(states, pts, sigma, gauss, shift, sampled, positions) && states[0]
                    == rng && sampled.len() == target;
            assert forall|i: int| 0 <= i < target implies (#[trigger] positions[i])
                < pts.len() by {
                lemma_padded(states, pts, sigma, gauss, shift, sampled, positions, i);
            }
            assert forall|i: int| pts.len() <= i < target implies {
                let q = pts[positions[i] as int];
                let p = #[trigger] sampled[i];
                &&& !sigma.positive() ==> p == q
                &&& p == (LitePoint { x: p.x, y: p.y, z: p.z, ..q })
            } by {
                lemma_padded(states, pts, sigma, gauss, shift, sampled, positions, i);
            }
        }
    } else {
        assert(sampled =~= points_at(pts, positions));
    }
}

fn take_points(pts: &Vec<LitePoint>, positions: &Vec<usize>) -> (r: Vec<LitePoint>)
    requires
        forall|i: int| 0 <= i < positions@.len() ==> (#[trigger] positions@[i]) < pts@.len(),
    ensures
        r@ == points_at(pts@, positions@),
{
    let mut out: Vec<LitePoint> = Vec::new();
    let mut i: usize = 0;
    while i < positions.len()
        invariant
            i <= positions@.len(),
            forall|k: int| 0 <= k < positions@.len() ==> (#[trigger] positions@[k]) < pts@.len(),
            out@.len() == i,
            forall|k: int| 0 <= k < i ==> #[trigger] out@[k] == pts@[positions@[k] as int],
        decreases positions@.len() - i,
    {
        out.push(pts[positions[i]]);
        i = i + 1;
    }
    assert(out@ =~= points_at(pts@, positions@));
    out
}

fn pad<G: Fn(SmallRng, Real64) -> (SmallRng, Real64), A: Fn(Real64, Real64) -> Real64>(
    pts: &Vec<LitePoint>,
    target: usize,
    sigma: Real64,
    gauss: G,
    shift: A,
    rng: SmallRng,
) -> (r: (Vec<LitePoint>, Vec<usize>))
    requires
        0 < pts@.len() < target,
        forall|g: SmallRng, s: Real64| #[trigger] call_requires(gauss, (g, s)),
        forall|a: Real64, b: Real64| #[trigger] call_requires(shift, (a, b)),
    ensures
        sampled_with(rng, pts@, target as nat, sigma, gauss, shift, r.0@, r.1@),
{
    let n: usize = pts.len();
    let mut sampled: Vec<LitePoint> = Vec::new();
    let mut positions: Vec<usize> = Vec::new();
    let mut i: usize = 0;
    while i < n
        invariant
            i <= n,
            n == pts@.len(),
            sampled@ =~= pts@.take(i as int),
            positions@ =~= identity(i as nat),
        decreases n - i,
    {
        sampled.push(pts[i]);
        positions.push(i);
        i = i + 1;
    }
    let jittered: bool = sigma.is_positive();
    let ghost mut states: Seq<SmallRng> = seq![rng];
    let mut state = rng;
    let mut k: usize = n;
    while k < target
        invariant
            n == pts@.len(),
            0 < n <= k <= target,
            jittered == sigma.positive(),
            forall|g: SmallRng, s: Real64| #[trigger] call_requires(gauss, (g, s)),
            forall|a: Real64, b: Real64| #[trigger] call_requires(shift, (a, b)),
            sampled@.len() == k,
            states[0] == rng,
            states.last() == state,
            padded_through(states, pts@, sigma, gauss, shift, sampled@, positions@),
        decreases target - k,
    {
        let ghost s0 = sampled@;
        let ghost p0 = positions@;
        let ghost states0 = states;
        let ghost before = state;
        let (drawn, d) = draw(state, 0, n);
        assert(draws(before, 0, pts@.len() as usize, drawn, d));
        let q: LitePoint = pts[d];
        let p: LitePoint = if jittered {
            let (g1, dx) = jitter_offset(drawn, sigma, &gauss);
            let x = shift(q.x, dx);
            let (g2, dy) = jitter_offset(g1, sigma, &gauss);
            let y = shift(q.y, dy);
            let (after, dz) = jitter_offset(g2, sigma, &gauss);
            let z = shift(q.z, dz);
            let p = LitePoint { x, y, z, ..q };
            state = after;
            assert(moved_by(gauss, shift, sigma, drawn, g1, g2, after, (dx, dy, dz), q, p));
            p
        } else {
            state = drawn;
            q
        };
        sampled.push(p);
        positions.push(d);
        proof {
            states = states.push(state);
            assert(pad_step(pts@, sigma, gauss, shift, before, state, d, p));
            assert forall|j: int| 0 <= j < n implies #[trigger] positions@[j] == j && sampled@[j]
                == pts@[j] by {
                assert(p0[j] == j);
                assert(s0[j] == pts@[j]);
            }
            assert forall|j: int| n <= j < k + 1 implies pad_step(
                pts@,
                sigma,
                gauss,
                shift,
                states[j - n],
                states[j - n + 1],
                positions@[j],
                #[trigger] sampled@[j],
            ) by {
                if j < k {
                    assert(sampled@[j] == s0[j] && positions@[j] == p0[j]);
                    assert(states[j - n] == states0[j - n]);
                    assert(states[j - n + 1] == states0[j - n + 1]);
                }
            }
        }
        k = k + 1;
    }
    (sampled, positions)
}

/// Samples a block to exactly `target` points, seeded by the block ID. The
/// result holds the sampled points, their positions in the block, and whether
/// points were repeated to make up the number. Where the standard deviation is
/// positive, each coordinate of a repeated point is moved by an offset:
/// `gauss` gives a normally distributed number, and `shift` adds two numbers.
pub fn resample_block<
    G: Fn(SmallRng, Real64) -> (SmallRng, Real64),
    A: Fn(Real64, Real64) -> Real64,
>(
    pts: &Vec<LitePoint>,
    target: usize,
    seed: u64,
    jitter_sigma: Real64,
    gauss: G,
    shift: A,
) -> (r: (Vec<LitePoint>, Vec<usize>, bool))
    requires
        forall|g: SmallRng, s: Real64| #[trigger] call_requires(gauss, (g, s)),
        forall|a: Real64, b: Real64| #[trigger] call_requires(shift, (a, b)),
    ensures
        is_sample(pts@, target as nat, seed, jitter_sigma, gauss, shift, r.0@, r.1@, r.2),
{
    if pts.len() == 0 || target == 0 {
        return (Vec::new(), Vec::new(), false);
    }
    let rng = seeded(seed);
    assert(seeds(seed, rng));
    if pts.len() >= target {
        let positions = draw_distinct(pts.len(), target, rng);
        let sampled = take_points(pts, &positions);
        (sampled, positions, false)
    } else {
        let (sampled, positions) = pad(pts, target, jitter_sigma, gauss, shift, rng);
        (sampled, positions, true)
    }
}

// ── Halo samples ────────────────────────────────────────────────────────────

/// What holds of every halo sample of at most `n` points for this seed: the
/// whole border where it is no larger, distinct points of it otherwise.
pub open spec fn is_halo_sample(
    border: Seq<IndexedPoint>,
    n: nat,
    seed: u64,
    halo: Seq<IndexedPoint>,
) -> bool {
    if border.len() <= n {
        halo == border
    } else {
        exists|rng: SmallRng, positions: Seq<usize>|
            seeds(seed, rng) && #[trigger] picked_with(rng, border.len(), n, positions) && halo
                == positions.map_values(|i: usize| border[i as int])
    }
}

/// A halo sample has as many points as asked for, as far as the border reaches,
/// and takes distinct points of the border.
pub proof fn law_halo_is_of_the_border(
    border: Seq<IndexedPoint>,
    n: nat,
    seed: u64,
    halo: Seq<IndexedPoint>,
)
    requires
        is_halo_sample(border, n, seed, halo),
        border.len() <= usize::MAX,
    ensures
        halo.len() == if border.len() <= n {
            border.len()
        } else {
            n
        },
        border.len() > n ==> exists|positions: Seq<usize>| #[trigger]
            picks(positions, border.len(), n) && halo == positions.map_values(
                |i: usize| border[i as int],
            ),
{
    if border.len() > n {
        let (rng, positions) = choose|rng: SmallRng, positions: Seq<usize>|
            seeds(seed, rng) && #[trigger] picked_with(rng, border.len(), n, positions) && halo
                == positions.map_values(|i: usize| border[i as int]);
        lemma_picked_with(rng, border.len(), n, positions);
    }
}

/// `n` distinct positions below `total`.
pub open spec fn picks(positions: Seq<usize>, total: nat, n: nat) -> bool {
    &&& positions.len() == n
    &&& positions.no_duplicates()
    &&& forall|i: int| 0 <= i < n ==> (#[trigger] positions[i]) < total
}

/// Samples at most `n` points of a block's border, without replacement and
/// without moving them.
pub fn sample_halo(border: &Vec<IndexedPoint>, n: usize, seed: u64) -> (r: Vec<IndexedPoint>)
    ensures
        is_halo_sample(border@, n as nat, seed, r@),
{
    let mut out: Vec<IndexedPoint> = Vec::new();
    if border.len() <= n {
        let mut i: usize = 0;
        while i < border.len()
            invariant
                i <= border@.len(),
                out@ =~= border@.take(i as int),
            decreases border@.len() - i,
        {
            out.push(border[i]);
            i = i + 1;
        }
        assert(out@ =~= border@);
        return out;
    }
    let rng = seeded(seed);
    assert(seeds(seed, rng));
    let positions = draw_distinct(border.len(), n, rng);
    let mut i: usize = 0;
    while i < positions.len()
        invariant
            i <= positions@.len(),
            forall|k: int| 0 <= k < positions@.len() ==> (#[trigger] positions@[k]) < border@.len(),
            out@.len() == i,
            forall|k: int| 0 <= k < i ==> #[trigger] out@[k] == border@[positions@[k] as int],
        decreases positions@.len() - i,
    {
        out.push(border[positions[i]]);
        i = i + 1;
    }
    proof {
        assert(out@ =~= positions@.map_values(|i: usize| border@[i as int]));
    }
    out
}

/// `p` is `q` with each coordinate shifted by an offset that is at most three
/// standard deviations from zero.
pub open spec fn near<A: Fn(Real64, Real64) -> Real64>(
    shift: A,
    sigma: Real64,
    offsets: (Real64, Real64, Real64),
    q: LitePoint,
    p: LitePoint,
) -> bool {
    let limit = sigma.tripled().magnitude();
    &&& offsets.0.magnitude() <= limit
    &&& offsets.1.magnitude() <= limit
    &&& offsets.2.magnitude() <= limit
    &&& call_ensures(shift, (q.x, offsets.0), p.x)
    &&& call_ensures(shift, (q.y, offsets.1), p.y)
    &&& call_ensures(shift, (q.z, offsets.2), p.z)
}

/// Where `gauss` gives no NaN, each coordinate of a padding point is moved by
/// at most three standard deviations.
pub proof fn law_padding_within_three_deviations<
    G: Fn(SmallRng, Real64) -> (SmallRng, Real64),
    A: Fn(Real64, Real64) -> Real64,
>(
    pts: Seq<LitePoint>,
    target: nat,
    seed: u64,
    sigma: Real64,
    gauss: G,
    shift: A,
    sampled: Seq<LitePoint>,
    positions: Seq<usize>,
    oversampled: bool,
    i: int,
)
    requires
        is_sample(pts, target, seed, sigma, gauss, shift, sampled, positions, oversampled),
        0 < pts.len() <= i < target,
        sigma.positive(),
        forall|g: SmallRng, h: SmallRng, raw: Real64| #[trigger]
            call_ensures(gauss, (g, sigma), (h, raw)) ==> !raw.nan(),
    ensures
        exists|offsets: (Real64, Real64, Real64)| #[trigger]
            near(shift, sigma, offsets, pts[positions[i] as int], sampled[i]),
{
    let n = pts.len() as int;
    let rng = choose|rng: SmallRng| #[trigger]
        seeds(seed, rng) && sampled_with(
            rng,
            pts,
            target,
            sigma,
            gauss,
            shift,
            sampled,
            positions,
        );
    let states = choose|states: Seq<SmallRng>| #[trigger]
        padded_through(states, pts, sigma, gauss, shift, sampled, positions) && states[0] == rng
            && sampled.len() == target;
    let q = pts[positions[i] as int];
    let p = sampled[i];
    let after = states[i - n + 1];
    assert(pad_step(pts, sigma, gauss, shift, states[i - n], after, positions[i], p));
    let (drawn, g1, g2, offsets) = choose|
        drawn: SmallRng,
        g1: SmallRng,
        g2: SmallRng,
        offsets: (Real64, Real64, Real64),
    | #[trigger]
        moved_by(gauss, shift, sigma, drawn, g1, g2, after, offsets, q, p);
    law_offset_within_three_deviations(gauss, sigma, drawn, g1, offsets.0);
    law_offset_within_three_deviations(gauss, sigma, g1, g2, offsets.1);
    law_offset_within_three_deviations(gauss, sigma, g2, after, offsets.2);
    assert(near(shift, sigma, offsets, q, p));
}

// ── Reproducing a sample ────────────────────────────────────────────────────

/// What a generator answers, where its seed or its state fixes the answer; and
/// the same of the two functions that move a coordinate.
pub ghost struct SamplingModel {
    pub seeded: spec_fn(u64) -> SmallRng,
    pub drawn: spec_fn(SmallRng, usize, usize) -> (SmallRng, usize),
    pub gauss: spec_fn(SmallRng, Real64) -> (SmallRng, Real64),
    pub shift: spec_fn(Real64, Real64) -> Real64,
}

/// Seeding and drawing answer as `m` says.
pub open spec fn generates(m: SamplingModel) -> bool {
    &&& forall|seed: u64, rng: SmallRng| #[trigger] seeds(seed, rng) ==> rng == (m.seeded)(seed)
    &&& forall|before: SmallRng, lo: usize, hi: usize, after: SmallRng, number: usize| #[trigger]
        draws(before, lo, hi, after, number) ==> (after, number) == (m.drawn)(before, lo, hi)
}

/// The functions that move a coordinate answer as `m` says.
pub open spec fn moves<
    G: Fn(SmallRng, Real64) -> (SmallRng, Real64),
    A: Fn(Real64, Real64) -> Real64,
>(gauss: G, shift: A, m: SamplingModel) -> bool {
    &&& forall|g: SmallRng, s: Real64, x: (SmallRng, Real64)| #[trigger]
        call_ensures(gauss, (g, s), x) ==> x == (m.gauss)(g, s)
    &&& forall|a: Real64, b: Real64, x: Real64| #[trigger]
        call_ensures(shift, (a, b), x) ==> x == (m.shift)(a, b)
}

proof fn lemma_same_numbers(
    m: SamplingModel,
    n: nat,
    s: Seq<SmallRng>,
    a: Seq<usize>,
    t: Seq<SmallRng>,
    b: Seq<usize>,
    k: int,
)
    requires
        generates(m),
        drawn_through(s, n, a),
        drawn_through(t, n, b),
        a.len() == b.len(),
        s[0] == t[0],
        0 <= k <= a.len(),
    ensures
        s[k] == t[k],
        a.take(k) == b.take(k),
    decreases k,
{
    if k > 0 {
        lemma_same_numbers(m, n, s, a, t, b, k - 1);
        let i = k - 1;
        assert(draws(s[i], i as usize, n as usize, s[i + 1], a[i]));
        assert(draws(t[i], i as usize, n as usize, t[i + 1], b[i]));
        assert(a.take(k) =~= a.take(k - 1).push(a[i]));
        assert(b.take(k) =~= b.take(k - 1).push(b[i]));
    } else {
        assert(a.take(0) =~= b.take(0));
    }
}

proof fn lemma_same_picks(
    m: SamplingModel,
    rng: SmallRng,
    n: nat,
    k: nat,
    a: Seq<usize>,
    b: Seq<usize>,
)
    requires
        generates(m),
        picked_with(rng, n, k, a),
        picked_with(rng, n, k, b),
    ensures
        a == b,
{
    let (s, x) = choose|states: Seq<SmallRng>, numbers: Seq<usize>| #[trigger]
        drawn_through(states, n, numbers) && states[0] == rng && numbers.len() == k && a == picked(
            n,
            numbers,
        );
    let (t, y) = choose|states: Seq<SmallRng>, numbers: Seq<usize>| #[trigger]
        drawn_through(states, n, numbers) && states[0] == rng && numbers.len() == k && b == picked(
            n,
            numbers,
        );
    lemma_same_numbers(m, n, s, x, t, y, k as int);
    assert(x.take(k as int) =~= x);
    assert(y.take(k as int) =~= y);
}

proof fn lemma_same_step<
    G: Fn(SmallRng, Real64) -> (SmallRng, Real64),
    A: Fn(Real64, Real64) -> Real64,
>(
    m: SamplingModel,
    pts: Seq<LitePoint>,
    sigma: Real64,
    gauss: G,
    shift: A,
    before: SmallRng,
    after: SmallRng,
    d: usize,
    p: LitePoint,
)
    requires
        generates(m),
        moves(gauss, shift, m),
        pad_step(pts, sigma, gauss, shift, before, after, d, p),
    ensures
        ({
            let (drawn, at) = (m.drawn)(before, 0, pts.len() as usize);
            let q = pts[at as int];
            let limit = sigma.tripled();
            let x = (m.gauss)(drawn, sigma);
            let y = (m.gauss)(x.0, sigma);
            let z = (m.gauss)(y.0, sigma);
            &&& d == at
            &&& if sigma.positive() {
                &&& after == z.0
                &&& p == (LitePoint {
                    x: (m.shift)(q.x, x.1.clamped(limit)),
                    y: (m.shift)(q.y, y.1.clamped(limit)),
                    z: (m.shift)(q.z, z.1.clamped(limit)),
                    ..q
                })
            } else {
                after == drawn && p == q
            }
        }),
{
    let n = pts.len() as usize;
    let q = pts[d as int];
    let drawn = choose|drawn: SmallRng| #[trigger]
        draws(before, 0, n, drawn, d) && if sigma.positive() {
            exists|g1: SmallRng, g2: SmallRng, offsets: (Real64, Real64, Real64)| #[trigger]
                moved_by(gauss, shift, sigma, drawn, g1, g2, after, offsets, q, p)
        } else {
            after == drawn && p == q
        };
    if sigma.positive() {
        let (g1, g2, offsets) = choose|
            g1: SmallRng,
            g2: SmallRng,
            offsets: (Real64, Real64, Real64),
        | #[trigger]
            moved_by(gauss, shift, sigma, drawn, g1, g2, after, offsets, q, p);
        let limit = sigma.tripled();
        let x = choose|raw: Real64| #[trigger]
            call_ensures(gauss, (drawn, sigma), (g1, raw)) && offsets.0 == raw.clamped(limit);
        let y = choose|raw: Real64| #[trigger]
            call_ensures(gauss, (g1, sigma), (g2, raw)) && offsets.1 == raw.clamped(limit);
        let z = choose|raw: Real64| #[trigger]
            call_ensures(gauss, (g2, sigma), (after, raw)) && offsets.2 == raw.clamped(limit);
        assert((g1, x) == (m.gauss)(drawn, sigma));
        assert((g2, y) == (m.gauss)(g1, sigma));
        assert((after, z) == (m.gauss)(g2, sigma));
    }
}

proof fn lemma_same_padding<
    G: Fn(SmallRng, Real64) -> (SmallRng, Real64),
    A: Fn(Real64, Real64) -> Real64,
>(
    m: SamplingModel,
    pts: Seq<LitePoint>,
    sigma: Real64,
    gauss: G,
    shift: A,
    s: Seq<SmallRng>,
    a: (Seq<LitePoint>, Seq<usize>),
    t: Seq<SmallRng>,
    b: (Seq<LitePoint>, Seq<usize>),
    k: int,
)
    requires
        generates(m),
        moves(gauss, shift, m),
        padded_through(s, pts, sigma, gauss, shift, a.0, a.1),
        padded_through(t, pts, sigma, gauss, shift, b.0, b.1),
        a.0.len() == b.0.len(),
        s[0] == t[0],
        pts.len() <= k <= a.0.len(),
    ensures
        s[k - pts.len()] == t[k - pts.len()],
        forall|i: int| 0 <= i < k ==> #[trigger] a.0[i] == b.0[i] && a.1[i] == b.1[i],
    decreases k,
{
    let n = pts.len() as int;
    if k > n {
        let i = k - 1;
        lemma_same_padding(m, pts, sigma, gauss, shift, s, a, t, b, i);
        let g = s[i - n];
        assert(pad_step(pts, sigma, gauss, shift, g, s[i - n + 1], a.1[i], a.0[i]));
        assert(pad_step(pts, sigma, gauss, shift, g, t[i - n + 1], b.1[i], b.0[i]));
        lemma_same_step(m, pts, sigma, gauss, shift, g, s[i - n + 1], a.1[i], a.0[i]);
        lemma_same_step(m, pts, sigma, gauss, shift, g, t[i - n + 1], b.1[i], b.0[i]);
    } else {
        assert forall|i: int| 0 <= i < k implies #[trigger] a.0[i] == b.0[i] && a.1[i]
            == b.1[i] by {
            assert(a.1[i] == i && a.0[i] == pts[i]);
            assert(b.1[i] == i && b.0[i] == pts[i]);
        }
    }
}

/// Where the generator's answers are fixed by its seed and its state, and those
/// of the functions that move a coordinate by their arguments, two samples of
/// one block for one seed are the same.
pub proof fn law_same_seed_same_sample<
    G: Fn(SmallRng, Real64) -> (SmallRng, Real64),
    A: Fn(Real64, Real64) -> Real64,
>(
    m: SamplingModel,
    pts: Seq<LitePoint>,
    target: nat,
    seed: u64,
    sigma: Real64,
    gauss: G,
    shift: A,
    a: (Seq<LitePoint>, Seq<usize>, bool),
    b: (Seq<LitePoint>, Seq<usize>, bool),
)
    requires
        generates(m),
        moves(gauss, shift, m),
        is_sample(pts, target, seed, sigma, gauss, shift, a.0, a.1, a.2),
        is_sample(pts, target, seed, sigma, gauss, shift, b.0, b.1, b.2),
    ensures
        a == b,
{
    if pts.len() == 0 || target == 0 {
        assert(a.0 =~= b.0);
        assert(a.1 =~= b.1);
    } else {
        let rng = (m.seeded)(seed);
        assert(sampled_with(rng, pts, target, sigma, gauss, shift, a.0, a.1));
        assert(sampled_with(rng, pts, target, sigma, gauss, shift, b.0, b.1));
        if pts.len() >= target {
            lemma_same_picks(m, rng, pts.len(), target, a.1, b.1);
        } else {
            let s = choose|states: Seq<SmallRng>| #[trigger]
                padded_through(states, pts, sigma, gauss, shift, a.0, a.1) && states[0] == rng
                    && a.0.len() == target;
            let t = choose|states: Seq<SmallRng>| #[trigger]
                padded_through(states, pts, sigma, gauss, shift, b.0, b.1) && states[0] == rng
                    && b.0.len() == target;
            lemma_same_padding(
                m,
                pts,
                sigma,
                gauss,
                shift,
                s,
                (a.0, a.1),
                t,
                (b.0, b.1),
                target as int,
            );
            assert(a.0 =~= b.0);
            assert forall|i: int| 0 <= i < target implies a.1[i] == b.1[i] by {
                assert(a.0[i] == b.0[i]);
            }
            assert(a.1 =~= b.1);
        }
    }
}

/// Where the generator's answers are fixed by its seed and its state, two halo
/// samples of one border for one seed are the same.
pub proof fn law_same_seed_same_halo(
    m: SamplingModel,
    border: Seq<IndexedPoint>,
    n: nat,
    seed: u64,
    a: Seq<IndexedPoint>,
    b: Seq<IndexedPoint>,
)
    requires
        generates(m),
        is_halo_sample(border, n, seed, a),
        is_halo_sample(border, n, seed, b),
    ensures
        a == b,
{
    if border.len() > n {
        let (r, p) = choose|rng: SmallRng, positions: Seq<usize>|
            seeds(seed, rng) && #[trigger] picked_with(rng, border.len(), n, positions) && a
                == positions.map_values(|i: usize| border[i as int]);
        let (t, q) = choose|rng: SmallRng, positions: Seq<usize>|
            seeds(seed, rng) && #[trigger] picked_with(rng, border.len(), n, positions) && b
                == positions.map_values(|i: usize| border[i as int]);
        lemma_same_picks(m, r, border.len(), n, p, q);
    }
}

/// A draw that was not drawn before picks the point of its own number, and what
/// is drawn later does not change what was picked.
pub proof fn law_draws_pick_their_points(n: nat, numbers: Seq<usize>, k: int)
    requires
        n <= usize::MAX,
        draws_fit(n, numbers),
        0 <= k < numbers.len(),
        forall|j: int| 0 <= j < k ==> #[trigger] numbers[j] != numbers[k],
    ensures
        picked(n, numbers)[k] == numbers[k],
        picked(n, numbers).take(k) == picked(n, numbers.take(k)),
{
    let d = numbers[k] as int;
    lemma_swaps(n, numbers, k);
    lemma_swaps(n, numbers, k + 1);
    lemma_unmoved(n, numbers, k, d);
    lemma_settled(n, numbers, k + 1, numbers.len() as int);
    lemma_settled(n, numbers, k, numbers.len() as int);
    lemma_swaps(n, numbers, numbers.len() as int);
    assert(swaps(identity(n), numbers, k + 1)[k] == numbers[k]);
    let first = numbers.take(k);
    lemma_same_swaps(n, numbers, first, k);
    assert(picked(n, numbers).take(k) =~= picked(n, first));
}

proof fn lemma_unmoved(n: nat, numbers: Seq<usize>, k: int, d: int)
    requires
        n <= usize::MAX,
        draws_fit(n, numbers),
        0 <= k <= numbers.len(),
        k <= d < n,
        forall|j: int| 0 <= j < k ==> #[trigger] numbers[j] != d,
    ensures
        swaps(identity(n), numbers, k)[d] == d,
    decreases k,
{
    if k > 0 {
        lemma_swaps(n, numbers, k - 1);
        lemma_unmoved(n, numbers, k - 1, d);
        assert(numbers[k - 1] != d && numbers[k - 1] < n);
    }
}

proof fn lemma_settled(n: nat, numbers: Seq<usize>, k: int, l: int)
    requires
        n <= usize::MAX,
        draws_fit(n, numbers),
        0 <= k <= l <= numbers.len(),
    ensures
        forall|i: int|
            0 <= i < k ==> #[trigger] swaps(identity(n), numbers, l)[i] == swaps(
                identity(n),
                numbers,
                k,
            )[i],
    decreases l,
{
    if l > k {
        lemma_swaps(n, numbers, l - 1);
        lemma_settled(n, numbers, k, l - 1);
        assert(l - 1 <= numbers[l - 1] < n);
        assert forall|i: int| 0 <= i < k implies #[trigger] swaps(identity(n), numbers, l)[i]
            == swaps(identity(n), numbers, k)[i] by {
            assert(swaps(identity(n), numbers, l)[i] == swaps(identity(n), numbers, l - 1)[i]);
        }
    }
}

proof fn lemma_same_swaps(n: nat, a: Seq<usize>, b: Seq<usize>, k: int)
    requires
        k <= a.len(),
        k <= b.len(),
        forall|i: int| 0 <= i < k ==> #[trigger] a[i] == b[i],
    ensures
        swaps(identity(n), a, k) == swaps(identity(n), b, k),
    decreases k,
{
    if k > 0 {
        lemma_same_swaps(n, a, b, k - 1);
        assert(a[k - 1] == b[k - 1]);
    }
}

} // verus!

//! Choosing a move straight from a policy, without search.

use crate::arith::{answers_fit, Evaluator};
use crate::batch::{policies_lie_one_after_the_other, policy_row};
use crate::buckets::{positions_lie_one_after_the_other, row_of};
use crate::game::{position_wf, Position};
use crate::ieee::{
    at_most32, greater32, gt32, is_nan32, Real, Real32, NEG_INFINITY32, ONE, ZERO32,
};
use crate::search::{moves_ok, Move};
use crate::tree::{ENC_LEN, POLICY_SIZE};
use vstd::prelude::*;

verus! {

/// A legal move: its policy index and its handle.
pub type Candidate = (usize, u16);

/// Arithmetic and random numbers for choosing from a policy. Nothing is promised of the
/// answers.
pub trait Sampler {
    /// A temperature on its way from `start` to `end` after the given number of annealing
    /// steps.
    fn temper(&self, start: Real, end: Real, steps: usize) -> Real;

    /// Cumulative weights of logits sharpened by a temperature, with a random threshold
    /// below the last of them. `seat` tells whose random numbers to use.
    fn draw(&self, seat: u64, logits: &Vec<Real32>, temperature: Real) -> (Real32, Vec<Real32>);
}

/// The candidates of a list of legal moves.
pub open spec fn candidates_of(legal: Seq<Move>) -> Seq<Candidate> {
    Seq::new(legal.len(), |j: int| (legal[j].1 as usize, legal[j].0))
}

/// Every candidate has a policy index.
pub open spec fn candidates_ok(cand: Seq<Candidate>) -> bool {
    forall|j: int| 0 <= j < cand.len() ==> (#[trigger] cand[j]).0 < POLICY_SIZE
}

/// Lists the candidates of legal moves, in order.
pub fn candidates(legal: &Vec<Move>) -> (cand: Vec<Candidate>)
    requires
        moves_ok(legal@),
    ensures
        cand@ == candidates_of(legal@),
        candidates_ok(cand@),
{
    let mut cand: Vec<Candidate> = Vec::new();
    let mut j: usize = 0;
    while j < legal.len()
        invariant
            0 <= j <= legal@.len(),
            moves_ok(legal@),
            cand@ == candidates_of(legal@).take(j as int),
            candidates_ok(cand@),
        decreases legal@.len() - j,
    {
        let (handle, index) = legal[j];
        assert(0 <= legal@[j as int].1 < POLICY_SIZE);
        let ghost before = cand@;
        cand.push((index as usize, handle));
        proof {
            assert(cand@ =~= candidates_of(legal@).take(j + 1));
            assert forall|k: int| 0 <= k < cand@.len() implies (#[trigger] cand@[k]).0
                < POLICY_SIZE by {
                if k < j {
                    assert(cand@[k] == before[k]);
                }
            }
        }
        j += 1;
    }
    assert(cand@ =~= candidates_of(legal@));
    cand
}

/// The logits of the candidates, in order.
pub open spec fn logits_of(cand: Seq<Candidate>, logits: Seq<Real32>) -> Seq<Real32> {
    Seq::new(cand.len(), |j: int| logits[cand[j].0 as int])
}

/// The candidate at place `p` has the first of the highest logits.
pub open spec fn is_first_peak(xs: Seq<Real32>, p: int) -> bool {
    &&& 0 <= p < xs.len()
    &&& greater32(xs[p], NEG_INFINITY32)
    &&& forall|j: int| 0 <= j < xs.len() ==> !greater32(#[trigger] xs[j], xs[p])
    &&& forall|j: int|
        0 <= j < p ==> is_nan32(#[trigger] xs[j]) || greater32(xs[p], xs[j])
}

/// The handle is that of the candidate with the highest logit, the first one on ties, or of
/// the first candidate when no logit exceeds negative infinity.
pub open spec fn is_greedy(cand: Seq<Candidate>, logits: Seq<Real32>, handle: u16) -> bool {
    let xs = logits_of(cand, logits);
    ||| exists|p: int| #[trigger] is_first_peak(xs, p) && handle == cand[p].1
    ||| handle == cand[0].1 && forall|j: int|
        0 <= j < xs.len() ==> !greater32(#[trigger] xs[j], NEG_INFINITY32)
}

/// The move with the highest logit, the first one on ties.
pub fn argmax_cand(cand: &Vec<Candidate>, logits: &[Real32]) -> (handle: u16)
    requires
        cand@.len() > 0,
        candidates_ok(cand@),
        logits@.len() == POLICY_SIZE,
    ensures
        is_greedy(cand@, logits@, handle),
{
    let ghost xs = logits_of(cand@, logits@);
    let mut best: u16 = cand[0].1;
    let mut best_v: Real32 = NEG_INFINITY32;
    let ghost mut at: int = -1;
    let mut j: usize = 0;
    while j < cand.len()
        invariant
            0 <= j <= cand@.len(),
            candidates_ok(cand@),
            logits@.len() == POLICY_SIZE,
            xs == logits_of(cand@, logits@),
            at < j,
            at < 0 ==> best == cand@[0].1 && best_v == NEG_INFINITY32 && forall|k: int|
                0 <= k < j ==> !greater32(#[trigger] xs[k], NEG_INFINITY32),
            at >= 0 ==> {
                &&& best == cand@[at].1
                &&& best_v == xs[at]
                &&& greater32(best_v, NEG_INFINITY32)
                &&& forall|k: int| 0 <= k < j ==> !greater32(#[trigger] xs[k], best_v)
                &&& forall|k: int|
                    0 <= k < at ==> is_nan32(#[trigger] xs[k]) || greater32(best_v, xs[k])
            },
        decreases cand@.len() - j,
    {
        let (index, handle) = cand[j];
        assert(cand@[j as int].0 < POLICY_SIZE);
        let v: Real32 = logits[index];
        assert(xs[j as int] == v);
        if gt32(v, best_v) {
            best_v = v;
            best = handle;
            proof {
                at = j as int;
            }
        }
        j += 1;
    }
    assert(at >= 0 ==> is_first_peak(xs, at));
    best
}

/// `r` is the first of `n` places whose cumulative weight exceeds the threshold, or the
/// last place when none does.
pub open spec fn is_draw(cumulative: Seq<Real32>, threshold: Real32, n: int, r: int) -> bool {
    &&& 0 <= r < n
    &&& forall|i: int|
        0 <= i < r && i < cumulative.len() ==> !greater32(#[trigger] cumulative[i], threshold)
    &&& (r < cumulative.len() && greater32(cumulative[r], threshold)) || r == n - 1
}

/// The place adds nothing to the cumulative weight before it.
pub open spec fn is_weightless(cumulative: Seq<Real32>, i: int) -> bool {
    at_most32(
        cumulative[i],
        if i == 0 {
            ZERO32
        } else {
            cumulative[i - 1]
        },
    )
}

/// A place of weight zero is not drawn while there is a later one, nor when the threshold lies
/// below any cumulative weight at all.
pub proof fn weightless_places_are_not_drawn(
    cumulative: Seq<Real32>,
    threshold: Real32,
    n: int,
    r: int,
)
    requires
        is_draw(cumulative, threshold, n, r),
        cumulative.len() == n,
        at_most32(ZERO32, threshold),
        r < n - 1 || exists|j: int|
            0 <= j < n && greater32(#[trigger] cumulative[j], threshold),
    ensures
        !is_weightless(cumulative, r),
{
    if r == n - 1 {
        let j = choose|j: int| 0 <= j < n && greater32(#[trigger] cumulative[j], threshold);
        assert(j == r);
    }
    assert(greater32(cumulative[r], threshold));
    if r > 0 {
        assert(!greater32(cumulative[r - 1], threshold));
    }
}

/// The candidate at place `r` is one that sampling from the logits can lead to.
pub open spec fn is_sampled<S: Sampler>(
    cand: Seq<Candidate>,
    logits: Seq<Real32>,
    temperature: Real,
    sampler: S,
    seat: u64,
    r: int,
) -> bool {
    exists|xs: Vec<Real32>, threshold: Real32, cumulative: Vec<Real32>| #[trigger]
        call_ensures(S::draw, (&sampler, seat, &xs, temperature), (threshold, cumulative)) && xs@
            == logits_of(cand, logits) && is_draw(cumulative@, threshold, cand.len() as int, r)
}

/// A sampled candidate is the first whose cumulative weight exceeds the threshold, or the last.
/// The sampler drew weights and threshold, with the random numbers of the seat and at the given
/// temperature, for the policy entries at the indices of the candidates, in their order.
pub proof fn sampled_candidates_exceed_their_threshold<S: Sampler>(
    cand: Seq<Candidate>,
    logits: Seq<Real32>,
    temperature: Real,
    sampler: S,
    seat: u64,
    r: int,
) -> (drawn: (Vec<Real32>, Real32, Vec<Real32>))
    requires
        is_sampled(cand, logits, temperature, sampler, seat, r),
    ensures
        ({
            let (xs, threshold, cumulative) = drawn;
            &&& call_ensures(S::draw, (&sampler, seat, &xs, temperature), (threshold, cumulative))
            &&& xs@.len() == cand.len()
            &&& forall|j: int|
                0 <= j < xs@.len() ==> #[trigger] xs@[j] == logits[cand[j].0 as int]
            &&& 0 <= r < cand.len()
            &&& forall|i: int|
                0 <= i < r && i < cumulative@.len() ==> !greater32(
                    #[trigger] cumulative@[i],
                    threshold,
                )
            &&& r < cand.len() - 1 ==> r < cumulative@.len() && greater32(
                cumulative@[r],
                threshold,
            )
        }),
{
    choose|xs: Vec<Real32>, threshold: Real32, cumulative: Vec<Real32>| #[trigger]
        call_ensures(S::draw, (&sampler, seat, &xs, temperature), (threshold, cumulative)) && xs@
            == logits_of(cand, logits) && is_draw(cumulative@, threshold, cand.len() as int, r)
}

/// A greedy move belongs to a candidate of which none has a higher policy entry. Earlier
/// candidates have a lower one, or none at all; where no entry exceeds negative infinity, it is
/// the first candidate.
pub proof fn greedy_moves_have_the_highest_logit(
    cand: Seq<Candidate>,
    logits: Seq<Real32>,
    handle: u16,
) -> (p: int)
    requires
        is_greedy(cand, logits, handle),
        cand.len() > 0,
    ensures
        0 <= p < cand.len(),
        handle == cand[p].1,
        forall|j: int|
            0 <= j < cand.len() && greater32(logits[(#[trigger] cand[j]).0 as int], NEG_INFINITY32)
                ==> !greater32(logits[cand[j].0 as int], logits[cand[p].0 as int]),
        forall|j: int|
            0 <= j < p ==> is_nan32(logits[(#[trigger] cand[j]).0 as int]) || greater32(
                logits[cand[p].0 as int],
                logits[cand[j].0 as int],
            ),
        p > 0 || (exists|j: int|
            0 <= j < cand.len() && greater32(
                logits[(#[trigger] cand[j]).0 as int],
                NEG_INFINITY32,
            )) ==> greater32(logits[cand[p].0 as int], NEG_INFINITY32),
{
    let xs = logits_of(cand, logits);
    if exists|p: int| #[trigger] is_first_peak(xs, p) && handle == cand[p].1 {
        let p = choose|p: int| #[trigger] is_first_peak(xs, p) && handle == cand[p].1;
        assert forall|j: int| 0 <= j < cand.len() implies !greater32(
            logits[(#[trigger] cand[j]).0 as int],
            logits[cand[p].0 as int],
        ) by {
            assert(!greater32(xs[j], xs[p]));
        }
        assert forall|j: int| 0 <= j < p implies is_nan32(logits[(#[trigger] cand[j]).0 as int])
            || greater32(logits[cand[p].0 as int], logits[cand[j].0 as int]) by {
            assert(is_nan32(xs[j]) || greater32(xs[p], xs[j]));
        }
        p
    } else {
        assert forall|j: int| 0 <= j < cand.len() implies !greater32(
            logits[(#[trigger] cand[j]).0 as int],
            NEG_INFINITY32,
        ) by {
            assert(!greater32(xs[j], NEG_INFINITY32));
        }
        0
    }
}

/// Samples a candidate in proportion to the exponentials of the logits; gives its place.
pub fn sample_action<S: Sampler>(
    cand: &Vec<Candidate>,
    logits: &[Real32],
    temperature: Real,
    sampler: &S,
    seat: u64,
) -> (r: usize)
    requires
        cand@.len() > 0,
        candidates_ok(cand@),
        logits@.len() == POLICY_SIZE,
    ensures
        is_sampled(cand@, logits@, temperature, *sampler, seat, r as int),
        r < cand@.len(),
{
    let mut xs: Vec<Real32> = Vec::new();
    let mut j: usize = 0;
    while j < cand.len()
        invariant
            0 <= j <= cand@.len(),
            candidates_ok(cand@),
            logits@.len() == POLICY_SIZE,
            xs@ == logits_of(cand@, logits@).take(j as int),
        decreases cand@.len() - j,
    {
        let (index, _) = cand[j];
        assert(cand@[j as int].0 < POLICY_SIZE);
        xs.push(logits[index]);
        assert(xs@ =~= logits_of(cand@, logits@).take(j + 1));
        j += 1;
    }
    assert(xs@ =~= logits_of(cand@, logits@));
    let (threshold, cumulative) = sampler.draw(seat, &xs, temperature);
    assert(call_ensures(S::draw, (sampler, seat, &xs, temperature), (threshold, cumulative)));
    let n: usize = cand.len();
    let mut i: usize = 0;
    while i < cumulative.len() && i < n
        invariant
            0 <= i <= n,
            i <= cumulative@.len(),
            n == cand@.len(),
            n > 0,
            forall|k: int| 0 <= k < i ==> !greater32(#[trigger] cumulative@[k], threshold),
            call_ensures(S::draw, (sampler, seat, &xs, temperature), (threshold, cumulative)),
            xs@ == logits_of(cand@, logits@),
        decreases n - i,
    {
        if gt32(cumulative[i], threshold) {
            assert(is_draw(cumulative@, threshold, n as int, i as int));
            return i;
        }
        i += 1;
    }
    assert(is_draw(cumulative@, threshold, n as int, n - 1));
    n - 1
}

/// Samples a candidate in proportion to the exponentials of the logits; gives its handle.
pub fn sample_cand<S: Sampler>(
    cand: &Vec<Candidate>,
    logits: &[Real32],
    temperature: Real,
    sampler: &S,
    seat: u64,
) -> (handle: u16)
    requires
        cand@.len() > 0,
        candidates_ok(cand@),
        logits@.len() == POLICY_SIZE,
    ensures
        exists|r: int| #[trigger]
            is_sampled(cand@, logits@, temperature, *sampler, seat, r) && handle == cand@[r].1,
{
    let r = sample_action(cand, logits, temperature, sampler, seat);
    cand[r].1
}

/// The batch holds the positions, row by row.
pub open spec fn is_batch_of(positions: Seq<&Position>, enc: Seq<Real32>) -> bool {
    &&& enc.len() == positions.len() * ENC_LEN
    &&& forall|k: int|
        0 <= k < positions.len() ==> #[trigger] row_of(enc, k) == positions[k].enc@
}

/// The move that a policy row leads to: sampled in the opening, and the one with the highest
/// logit afterwards.
pub open spec fn is_policy_move<S: Sampler>(
    position: Position,
    row: Seq<Real32>,
    opening: bool,
    sampler: S,
    seat: u64,
    handle: u16,
) -> bool {
    let cand = candidates_of(position.legal@);
    if opening {
        exists|r: int| #[trigger]
            is_sampled(cand, row, ONE, sampler, seat, r) && handle == cand[r].1
    } else {
        is_greedy(cand, row, handle)
    }
}

/// In the opening a player that does not search samples: the sampler draws at temperature one
/// for the policy entries at the indices of the legal moves, in their order, and the move is the
/// first whose cumulative weight exceeds the threshold, or the last.
pub proof fn opening_moves_are_drawn<S: Sampler>(
    position: Position,
    row: Seq<Real32>,
    sampler: S,
    seat: u64,
    handle: u16,
) -> (drawn: (Vec<Real32>, Real32, Vec<Real32>, int))
    requires
        moves_ok(position.legal@),
        is_policy_move(position, row, true, sampler, seat, handle),
    ensures
        ({
            let (xs, threshold, cumulative, r) = drawn;
            &&& call_ensures(
                S::draw,
                (&sampler, seat, &xs, 0x3ff0_0000_0000_0000u64),
                (threshold, cumulative),
            )
            &&& xs@.len() == position.legal@.len()
            &&& forall|j: int|
                0 <= j < xs@.len() ==> #[trigger] xs@[j] == row[position.legal@[j].1 as int]
            &&& 0 <= r < position.legal@.len()
            &&& handle == position.legal@[r].0
            &&& forall|i: int|
                0 <= i < r && i < cumulative@.len() ==> !greater32(
                    #[trigger] cumulative@[i],
                    threshold,
                )
            &&& r < position.legal@.len() - 1 ==> r < cumulative@.len() && greater32(
                cumulative@[r],
                threshold,
            )
        }),
{
    let cand = candidates_of(position.legal@);
    let r = choose|r: int| #[trigger]
        is_sampled(cand, row, ONE, sampler, seat, r) && handle == cand[r].1;
    let (xs, threshold, cumulative) = sampled_candidates_exceed_their_threshold(
        cand,
        row,
        ONE,
        sampler,
        seat,
        r,
    );
    assert forall|j: int| 0 <= j < xs@.len() implies #[trigger] xs@[j]
        == row[position.legal@[j].1 as int] by {
        assert(0 <= position.legal@[j].1 < POLICY_SIZE);
        assert(cand[j].0 == position.legal@[j].1);
    }
    (xs, threshold, cumulative, r)
}

/// After the opening a player that does not search takes a legal move of which none has a
/// higher policy entry, the first of those.
pub proof fn later_moves_have_the_highest_logit<S: Sampler>(
    position: Position,
    row: Seq<Real32>,
    sampler: S,
    seat: u64,
    handle: u16,
) -> (p: int)
    requires
        moves_ok(position.legal@),
        position.legal@.len() > 0,
        is_policy_move(position, row, false, sampler, seat, handle),
    ensures
        0 <= p < position.legal@.len(),
        handle == position.legal@[p].0,
        forall|j: int|
            0 <= j < position.legal@.len() && greater32(
                row[(#[trigger] position.legal@[j]).1 as int],
                NEG_INFINITY32,
            ) ==> !greater32(row[position.legal@[j].1 as int], row[position.legal@[p].1 as int]),
        forall|j: int|
            0 <= j < p ==> is_nan32(row[(#[trigger] position.legal@[j]).1 as int]) || greater32(
                row[position.legal@[p].1 as int],
                row[position.legal@[j].1 as int],
            ),
{
    let legal = position.legal@;
    let cand = candidates_of(legal);
    assert forall|j: int| 0 <= j < legal.len() implies (#[trigger] cand[j]).0 == legal[j].1
        && cand[j].1 == legal[j].0 by {
        assert(0 <= legal[j].1 < POLICY_SIZE);
    }
    let p = greedy_moves_have_the_highest_logit(cand, row, handle);
    assert forall|j: int| 0 <= j < legal.len() implies row[(#[trigger] legal[j]).1 as int]
        == row[cand[j].0 as int] by {
        assert(cand[j].0 == legal[j].1);
    }
    p
}

/// The handles are what one evaluation of the positions leads to, without search: sampled below
/// `opening_plies`, and the one with the highest logit from there on.
pub open spec fn chosen_by_policy<S: Sampler, E: Evaluator>(
    positions: Seq<&Position>,
    plies: Seq<usize>,
    opening_plies: int,
    sampler: S,
    seat: u64,
    net: E,
    handles: Seq<u16>,
) -> bool {
    exists|enc: Vec<Real32>, out: (Vec<Real32>, Vec<Real>)| #[trigger]
        call_ensures(E::eval, (&net, &enc, positions.len() as usize), out) && is_batch_of(
            positions,
            enc@,
        ) && forall|i: int|
            0 <= i < handles.len() ==> is_policy_move(
                *positions[i],
                policy_row(out.0@, i),
                plies[i] < opening_plies,
                sampler,
                seat,
                #[trigger] handles[i],
            )
}

/// A player that does not search asks about all positions at once, each in its row, and takes its
/// policy from the same row of the answer. Where a game has come to fewer than `opening_plies`
/// plies it samples, and everywhere else it is greedy.
pub proof fn policies_go_by_row_and_ply<S: Sampler, E: Evaluator>(
    positions: Seq<&Position>,
    plies: Seq<usize>,
    opening_plies: int,
    sampler: S,
    seat: u64,
    net: E,
    handles: Seq<u16>,
    i: int,
) -> (asked: (Vec<Real32>, (Vec<Real32>, Vec<Real>), Seq<Real32>))
    requires
        chosen_by_policy(positions, plies, opening_plies, sampler, seat, net, handles),
        answers_fit(net),
        0 <= i < positions.len() <= usize::MAX,
        handles.len() == positions.len(),
    ensures
        ({
            let (enc, out, row) = asked;
            &&& call_ensures(E::eval, (&net, &enc, positions.len() as usize), out)
            &&& enc@.len() == positions.len() * ENC_LEN
            &&& forall|x: int|
                0 <= x < ENC_LEN ==> enc@[i * ENC_LEN + x] == #[trigger] positions[i].enc@[x]
            &&& row.len() == POLICY_SIZE
            &&& forall|x: int|
                0 <= x < POLICY_SIZE ==> #[trigger] row[x] == out.0@[i * POLICY_SIZE + x]
            &&& plies[i] < opening_plies ==> is_policy_move(
                *positions[i],
                row,
                true,
                sampler,
                seat,
                handles[i],
            )
            &&& plies[i] >= opening_plies ==> is_policy_move(
                *positions[i],
                row,
                false,
                sampler,
                seat,
                handles[i],
            )
        }),
{
    let (enc, out) = choose|enc: Vec<Real32>, out: (Vec<Real32>, Vec<Real>)| #[trigger]
        call_ensures(E::eval, (&net, &enc, positions.len() as usize), out) && is_batch_of(
            positions,
            enc@,
        ) && forall|i: int|
            0 <= i < handles.len() ==> is_policy_move(
                *positions[i],
                policy_row(out.0@, i),
                plies[i] < opening_plies,
                sampler,
                seat,
                #[trigger] handles[i],
            );
    let m = positions.len();
    assert((i + 1) * ENC_LEN <= m * ENC_LEN) by (nonlinear_arith)
        requires
            i + 1 <= m,
    ;
    assert((i + 1) * POLICY_SIZE <= m * POLICY_SIZE) by (nonlinear_arith)
        requires
            i + 1 <= m,
    ;
    positions_lie_one_after_the_other(enc@, i);
    policies_lie_one_after_the_other(out.0@, i);
    assert(row_of(enc@, i) == positions[i].enc@);
    assert forall|x: int| 0 <= x < ENC_LEN implies enc@[i * ENC_LEN + x]
        == #[trigger] positions[i].enc@[x] by {
        assert(row_of(enc@, i)[x] == enc@[i * ENC_LEN + x]);
    }
    assert(is_policy_move(
        *positions[i],
        policy_row(out.0@, i),
        plies[i] < opening_plies,
        sampler,
        seat,
        handles[i],
    ));
    (enc, out, policy_row(out.0@, i))
}

/// Chooses a move for each position straight from the policy: sampled in the opening, and the
/// one with the highest logit afterwards.
pub fn policy_moves<S: Sampler, E: Evaluator>(
    positions: &Vec<&Position>,
    plies: &Vec<usize>,
    opening_plies: usize,
    sampler: &S,
    seat: u64,
    net: &E,
) -> (handles: Vec<u16>)
    requires
        plies@.len() == positions@.len(),
        forall|i: int|
            0 <= i < positions@.len() ==> position_wf(*#[trigger] positions@[i])
                && positions@[i].legal@.len() > 0,
        answers_fit(*net),
    ensures
        handles@.len() == positions@.len(),
        exists|enc: Vec<Real32>, out: (Vec<Real32>, Vec<Real>)| #[trigger]
            call_ensures(E::eval, (net, &enc, positions@.len() as usize), out) && is_batch_of(
                positions@,
                enc@,
            ) && forall|i: int|
                0 <= i < handles@.len() ==> is_policy_move(
                    *positions@[i],
                    policy_row(out.0@, i),
                    plies@[i] < opening_plies,
                    *sampler,
                    seat,
                    #[trigger] handles@[i],
                ),
        chosen_by_policy(
            positions@,
            plies@,
            opening_plies as int,
            *sampler,
            seat,
            *net,
            handles@,
        ),
{
    let mut enc: Vec<Real32> = Vec::new();
    let mut k: usize = 0;
    while k < positions.len()
        invariant
            0 <= k <= positions@.len(),
            forall|i: int|
                0 <= i < positions@.len() ==> position_wf(*#[trigger] positions@[i])
                    && positions@[i].legal@.len() > 0,
            enc@.len() == k * ENC_LEN,
            forall|j: int| 0 <= j < k ==> #[trigger] row_of(enc@, j) == positions@[j].enc@,
        decreases positions@.len() - k,
    {
        let p = positions[k];
        assert(position_wf(*positions@[k as int]));
        let ghost before = enc@;
        enc.extend_from_slice(p.enc.as_slice());
        proof {
            assert(enc@ =~= before + p.enc@);
            crate::batch::lemma_append_row(before, p.enc@, k as int);
            assert forall|j: int| 0 <= j < k + 1 implies #[trigger] row_of(enc@, j)
                == positions@[j].enc@ by {
                if j < k {
                    assert(row_of(enc@, j) == row_of(before, j));
                }
            }
        }
        k += 1;
    }
    let m: usize = positions.len();
    let out = net.eval(&enc, m);
    assert(call_ensures(E::eval, (net, &enc, m), out));
    let logits = &out.0;
    assert(logits@.len() == logits.len());
    let mut handles: Vec<u16> = Vec::new();
    let mut i: usize = 0;
    while i < m
        invariant
            0 <= i <= m,
            m == positions@.len(),
            plies@.len() == positions@.len(),
            forall|j: int|
                0 <= j < positions@.len() ==> position_wf(*#[trigger] positions@[j])
                    && positions@[j].legal@.len() > 0,
            *logits == out.0,
            m * POLICY_SIZE <= logits@.len() <= usize::MAX,
            handles@.len() == i,
            forall|j: int|
                0 <= j < i ==> is_policy_move(
                    *positions@[j],
                    policy_row(out.0@, j),
                    plies@[j] < opening_plies,
                    *sampler,
                    seat,
                    #[trigger] handles@[j],
                ),
        decreases m - i,
    {
        let p = positions[i];
        assert(position_wf(*positions@[i as int]));
        proof {
            assert((i + 1) * POLICY_SIZE <= m * POLICY_SIZE) by (nonlinear_arith)
                requires
                    i + 1 <= m,
            ;
        }
        let from: usize = i * POLICY_SIZE;
        let row = vstd::slice::slice_subrange(logits.as_slice(), from, from + POLICY_SIZE);
        assert(row@ =~= policy_row(out.0@, i as int));
        let cand = candidates(&p.legal);
        let handle: u16 = if plies[i] < opening_plies {
            sample_cand(&cand, row, ONE, sampler, seat)
        } else {
            argmax_cand(&cand, row)
        };
        assert(is_policy_move(
            *positions@[i as int],
            policy_row(out.0@, i as int),
            plies@[i as int] < opening_plies,
            *sampler,
            seat,
            handle,
        ));
        handles.push(handle);
        i += 1;
    }
    assert(call_ensures(E::eval, (net, &enc, positions@.len() as usize), out));
    assert(is_batch_of(positions@, enc@));
    handles
}

} // verus!

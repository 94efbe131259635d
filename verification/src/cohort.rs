//! Self-play without search: games whose moves are sampled straight from the policy, until a
//! cohort of decisions is collected.
//!
//! A row of a cohort is `[ state | legal mask | action | z ]`, where `z` is the result of the
//! game from the point of view of the side that made the decision.

use crate::arith::{table_wf, Table};
use crate::buckets::row_of;
use crate::choice::{
    candidates, candidates_of, candidates_ok, is_sampled, sample_action,
    sampled_candidates_exceed_their_threshold, Candidate, Sampler,
};
use crate::frame::{flat, lemma_flat_push};
use crate::game::{
    anneal_steps, is_result, outcome_for, position_wf, result_to_bits, steps_annealed, Position,
};
use crate::ieee::{
    greater32, neg32, whole, whole32, whole_numbers_differ, whole_numbers_fit, Real, Real32, ONE32,
    ZERO32,
};
use crate::search::{moves_ok, Move};
use crate::setup::{at_least, raise};
use crate::tree::{ENC_LEN, POLICY_SIZE};
use vstd::prelude::*;
use vstd::slice::slice_subrange;

verus! {

/// Numbers per row of a cohort.
pub const ROW_FLOATS: usize = ENC_LEN + POLICY_SIZE + 2;

/// How a cohort is to be collected.
pub struct Config {
    pub weights: String,
    pub out: String,
    /// Rows after which no new games are started.
    pub target_rows: usize,
    /// Most positions per evaluation.
    pub batch: usize,
    /// Number of workers.
    pub threads: usize,
    /// Games in flight; zero stands for twice the batch.
    pub concurrency: usize,
    pub temperature: Real,
    pub temp_end: Real,
    /// A game that reaches this many plies is a draw.
    pub max_plies: u32,
    pub seed: u64,
    pub cpu: bool,
}

/// A decision: the encoded position, the mask of the legal moves, the policy index of the
/// move, and whether it was White's turn.
pub struct Decision {
    pub state: Vec<Real32>,
    pub mask: Vec<Real32>,
    pub action: u32,
    pub white_to_move: bool,
}

/// What is needed to make the next decision once the policy is known.
pub struct Pending {
    pub enc: Vec<Real32>,
    pub cand: Vec<Candidate>,
    pub mask: Vec<Real32>,
    pub white_to_move: bool,
}

/// A game without search.
pub struct Episode {
    pub position: Position,
    /// The moves that led to the position from the start of the game.
    pub line: Vec<u16>,
    pub decisions: Vec<Decision>,
    pub plies: u32,
}

/// A game that waits for its policy.
pub struct Flight {
    pub game: Episode,
    pub pending: Pending,
    /// The worker that the game belongs to.
    pub owner: usize,
}

/// Index `x` belongs to a legal move.
pub open spec fn has_index(legal: Seq<Move>, x: int) -> bool {
    exists|j: int| 0 <= j < legal.len() && (#[trigger] legal[j]).1 == x
}

/// One at the indices of the legal moves, and zero everywhere else.
pub open spec fn mask_of(legal: Seq<Move>) -> Seq<Real32> {
    Seq::new(
        POLICY_SIZE as nat,
        |x: int|
            if has_index(legal, x) {
                ONE32
            } else {
                ZERO32
            },
    )
}

/// The next decision at a position.
pub open spec fn prepares(p: Position, pending: Pending) -> bool {
    &&& pending.enc@ == p.enc@
    &&& pending.cand@ == candidates_of(p.legal@)
    &&& pending.mask@ == mask_of(p.legal@)
    &&& pending.white_to_move == p.white_to_move
}

/// Builds the mask of the legal moves.
fn legal_mask(legal: &Vec<Move>) -> (mask: Vec<Real32>)
    requires
        moves_ok(legal@),
    ensures
        mask@ == mask_of(legal@),
{
    let mut mask: Vec<Real32> = Vec::new();
    while mask.len() < POLICY_SIZE
        invariant
            mask@.len() <= POLICY_SIZE,
            forall|x: int| 0 <= x < mask@.len() ==> #[trigger] mask@[x] == ZERO32,
        decreases POLICY_SIZE - mask@.len(),
    {
        mask.push(ZERO32);
    }
    assert(mask@ =~= mask_of(legal@.take(0)));
    let mut j: usize = 0;
    while j < legal.len()
        invariant
            0 <= j <= legal@.len(),
            moves_ok(legal@),
            mask@ == mask_of(legal@.take(j as int)),
        decreases legal@.len() - j,
    {
        let (_, index) = legal[j];
        assert(0 <= legal@[j as int].1 < POLICY_SIZE);
        let ghost before = mask@;
        mask.set(index as usize, ONE32);
        proof {
            let some = legal@.take(j as int);
            let more = legal@.take(j + 1);
            assert forall|x: int| 0 <= x < POLICY_SIZE implies mask@[x] == mask_of(more)[x] by {
                if has_index(some, x) {
                    let k = choose|k: int| 0 <= k < some.len() && (#[trigger] some[k]).1 == x;
                    assert(more[k] == some[k]);
                    assert(has_index(more, x));
                }
                if x == index {
                    assert(more[j as int].1 == x);
                    assert(has_index(more, x));
                } else if has_index(more, x) {
                    let k = choose|k: int| 0 <= k < more.len() && (#[trigger] more[k]).1 == x;
                    assert(k != j);
                    assert(some[k] == more[k]);
                    assert(has_index(some, x));
                }
            }
            assert(mask@ =~= mask_of(more));
        }
        j += 1;
    }
    assert(legal@.take(j as int) =~= legal@);
    mask
}

/// Makes ready for the decision at a position.
pub fn prepare(position: &Position) -> (pending: Pending)
    requires
        position_wf(*position),
    ensures
        prepares(*position, pending),
        candidates_ok(pending.cand@),
{
    let cand = candidates(&position.legal);
    let mask = legal_mask(&position.legal);
    Pending {
        enc: position.enc.clone(),
        cand,
        mask,
        white_to_move: position.white_to_move,
    }
}

/// A new game.
pub fn new_game(position: Position) -> (game: Episode)
    ensures
        game.position == position,
        game.line@.len() == 0,
        game.decisions@.len() == 0,
        game.plies == 0,
{
    Episode { position, line: Vec::new(), decisions: Vec::new(), plies: 0 }
}

/// A decision has the shape of a row.
pub open spec fn decision_wf(d: Decision) -> bool {
    d.state@.len() == ENC_LEN && d.mask@.len() == POLICY_SIZE && d.action < POLICY_SIZE
}

/// A game without search is well-formed: each ply is a move of its line and a decision that is
/// on record.
pub open spec fn episode_wf(g: Episode) -> bool {
    &&& position_wf(g.position)
    &&& g.plies == g.line@.len()
    &&& g.plies == g.decisions@.len()
    &&& forall|k: int| 0 <= k < g.decisions@.len() ==> decision_wf(#[trigger] g.decisions@[k])
}

/// A game that waits for its policy is well-formed: it goes on, and its next decision is
/// prepared.
pub open spec fn flight_wf(f: Flight) -> bool {
    &&& episode_wf(f.game)
    &&& f.game.position.legal@.len() > 0
    &&& prepares(f.game.position, f.pending)
    &&& f.game.plies < u32::MAX
}

/// Starts a new game.
pub fn spawn<T: Table>(table: &T, seat: u64, owner: usize) -> (f: Flight)
    requires
        table_wf(*table),
    ensures
        flight_wf(f),
        call_ensures(T::start, (table, seat, None), f.game.position),
        f.game.line@.len() == 0,
        f.game.decisions@.len() == 0,
        f.game.plies == 0,
        f.owner == owner,
{
    let position = table.start(seat, None);
    let pending = prepare(&position);
    Flight { game: new_game(position), pending, owner }
}

/// What became of a game after a decision.
pub enum Progress {
    /// It waits for its next policy.
    Goes(Flight),
    /// It is over.
    Over(Episode),
}

/// A decision was made: the `k`-th candidate was sampled and played, and the decision is on
/// record. The game is over when the new position has an outcome or the ply cap is reached.
pub open spec fn decides<T: Table>(
    before: Flight,
    progress: Progress,
    k: int,
    table: T,
    seat: u64,
    max_plies: u32,
) -> bool {
    let (index, handle) = before.pending.cand@[k];
    let after = match progress {
        Progress::Goes(f) => f.game,
        Progress::Over(g) => g,
    };
    &&& after.line@ == before.game.line@.push(handle)
    &&& call_ensures(T::play, (&table, seat, &after.line), after.position)
    &&& after.plies == before.game.plies + 1
    &&& after.decisions@ == before.game.decisions@.push(
        Decision {
            state: before.pending.enc,
            mask: before.pending.mask,
            action: index as u32,
            white_to_move: before.pending.white_to_move,
        },
    )
    &&& (progress is Over <==> after.position.outcome is Some || after.plies >= max_plies)
    &&& progress matches Progress::Goes(f) ==> f.owner == before.owner && prepares(
        after.position,
        f.pending,
    )
}

/// A turn of a game whose policy has arrived.
pub open spec fn takes_turn<S: Sampler, T: Table>(
    before: Flight,
    progress: Progress,
    row: Seq<Real32>,
    config: Config,
    sampler: S,
    table: T,
    seat: u64,
) -> bool {
    exists|t: Real, k: int|
        {
            &&& #[trigger] call_ensures(
                S::temper,
                (
                    &sampler,
                    config.temperature,
                    config.temp_end,
                    anneal_steps(before.game.plies as int) as usize,
                ),
                t,
            )
            &&& is_sampled(before.pending.cand@, row, t, sampler, before.owner as u64, k)
            &&& #[trigger] decides(before, progress, k, table, seat, config.max_plies)
        }
}

/// What a turn does. The sampler is asked for the temperature after no step below ply 20, after
/// one more step with each ply from there to ply 60, and after 40 steps from then on. At that
/// temperature it draws for the policy entries at the indices of the legal moves, in their
/// order; the `k`-th legal move is the first whose cumulative weight exceeds the threshold, or
/// the last. That move lengthens the line, and the decision is on record with the position, the
/// legal moves, the policy index of the move and the side to move. The game is over exactly
/// where the board has an outcome or the ply cap is reached.
pub proof fn turns_sharpen_with_the_plies<S: Sampler, T: Table>(
    before: Flight,
    progress: Progress,
    row: Seq<Real32>,
    config: Config,
    sampler: S,
    table: T,
    seat: u64,
) -> (made: (Real, Vec<Real32>, Real32, Vec<Real32>, int))
    requires
        flight_wf(before),
        takes_turn(before, progress, row, config, sampler, table, seat),
    ensures
        ({
            let (t, xs, threshold, cumulative, k) = made;
            let plies = before.game.plies as int;
            let legal = before.game.position.legal@;
            let after = match progress {
                Progress::Goes(f) => f.game,
                Progress::Over(g) => g,
            };
            let decision = after.decisions@.last();
            &&& plies < 20 ==> call_ensures(
                S::temper,
                (&sampler, config.temperature, config.temp_end, 0usize),
                t,
            )
            &&& 20 <= plies < 60 ==> call_ensures(
                S::temper,
                (&sampler, config.temperature, config.temp_end, (plies - 20) as usize),
                t,
            )
            &&& plies >= 60 ==> call_ensures(
                S::temper,
                (&sampler, config.temperature, config.temp_end, 40usize),
                t,
            )
            &&& call_ensures(
                S::draw,
                (&sampler, before.owner as u64, &xs, t),
                (threshold, cumulative),
            )
            &&& xs@.len() == legal.len()
            &&& forall|j: int| 0 <= j < xs@.len() ==> #[trigger] xs@[j] == row[legal[j].1 as int]
            &&& 0 <= k < legal.len()
            &&& forall|i: int|
                0 <= i < k && i < cumulative@.len() ==> !greater32(
                    #[trigger] cumulative@[i],
                    threshold,
                )
            &&& k < legal.len() - 1 ==> k < cumulative@.len() && greater32(cumulative@[k], threshold)
            &&& after.line@ == before.game.line@.push(legal[k].0)
            &&& call_ensures(T::play, (&table, seat, &after.line), after.position)
            &&& after.plies == plies + 1
            &&& after.decisions@.len() == before.game.decisions@.len() + 1
            &&& after.decisions@.drop_last() == before.game.decisions@
            &&& decision.state@ == before.game.position.enc@
            &&& decision.action == legal[k].1
            &&& decision.white_to_move == before.game.position.white_to_move
            &&& decision.mask@.len() == POLICY_SIZE
            &&& forall|j: int|
                0 <= j < legal.len() ==> decision.mask@[(#[trigger] legal[j]).1 as int] == ONE32
            &&& forall|x: int|
                0 <= x < POLICY_SIZE && (forall|j: int|
                    0 <= j < legal.len() ==> (#[trigger] legal[j]).1 != x)
                    ==> #[trigger] decision.mask@[x] == ZERO32
            &&& progress is Over <==> after.position.outcome is Some || plies + 1
                >= config.max_plies
            &&& progress matches Progress::Goes(f) ==> f.owner == before.owner
        }),
{
    let (t, k) = choose|t: Real, k: int|
        {
            &&& #[trigger] call_ensures(
                S::temper,
                (
                    &sampler,
                    config.temperature,
                    config.temp_end,
                    anneal_steps(before.game.plies as int) as usize,
                ),
                t,
            )
            &&& is_sampled(before.pending.cand@, row, t, sampler, before.owner as u64, k)
            &&& #[trigger] decides(before, progress, k, table, seat, config.max_plies)
        };
    let legal = before.game.position.legal@;
    let cand = before.pending.cand@;
    let (xs, threshold, cumulative) = sampled_candidates_exceed_their_threshold(
        cand,
        row,
        t,
        sampler,
        before.owner as u64,
        k,
    );
    assert forall|j: int| 0 <= j < legal.len() implies (#[trigger] cand[j]).0 == legal[j].1
        && cand[j].1 == legal[j].0 by {
        assert(0 <= legal[j].1 < POLICY_SIZE);
    }
    assert forall|j: int| 0 <= j < xs@.len() implies #[trigger] xs@[j]
        == row[legal[j].1 as int] by {
        assert(cand[j].0 == legal[j].1);
    }
    let mask = before.pending.mask@;
    assert forall|j: int| 0 <= j < legal.len() implies mask[(#[trigger] legal[j]).1 as int]
        == ONE32 by {
        assert(has_index(legal, legal[j].1 as int));
    }
    assert(cand[k].0 == legal[k].1);
    let after = match progress {
        Progress::Goes(f) => f.game,
        Progress::Over(g) => g,
    };
    assert(after.decisions@.drop_last() =~= before.game.decisions@);
    (t, xs, threshold, cumulative, k)
}

/// Samples and plays a move of a game whose policy has arrived.
pub fn step<S: Sampler, T: Table>(
    flight: Flight,
    row: &[Real32],
    config: &Config,
    sampler: &S,
    table: &T,
    seat: u64,
) -> (progress: Progress)
    requires
        flight_wf(flight),
        row@.len() == POLICY_SIZE,
        table_wf(*table),
    ensures
        takes_turn(flight, progress, row@, *config, *sampler, *table, seat),
        match progress {
            Progress::Goes(f) => flight_wf(f),
            Progress::Over(g) => episode_wf(g),
        },
{
    let ghost before = flight;
    let t = sampler.temper(
        config.temperature,
        config.temp_end,
        steps_annealed(flight.game.plies as usize),
    );
    proof {
        lemma_candidates_ok(flight.game.position.legal@);
    }
    let k = sample_action(&flight.pending.cand, row, t, sampler, flight.owner as u64);
    let (index, handle) = flight.pending.cand[k];
    assert(before.pending.cand@[k as int].0 < POLICY_SIZE);
    let Flight { game, pending, owner } = flight;
    let Pending { enc, cand: _, mask, white_to_move } = pending;
    let Episode { position: _, line, decisions, plies } = game;
    let mut line = line;
    line.push(handle);
    let mut decisions = decisions;
    decisions.push(Decision { state: enc, mask, action: index as u32, white_to_move });
    let position = table.play(seat, &line);
    let plies: u32 = plies + 1;
    proof {
        assert forall|j: int| 0 <= j < decisions@.len() implies decision_wf(
            #[trigger] decisions@[j],
        ) by {
            if j < before.game.decisions@.len() {
                assert(decisions@[j] == before.game.decisions@[j]);
            }
        }
    }
    let over = position.outcome.is_some() || plies >= config.max_plies;
    if over {
        let progress = Progress::Over(Episode { position, line, decisions, plies });
        assert(decides(before, progress, k as int, *table, seat, config.max_plies));
        return progress;
    }
    let pending = prepare(&position);
    let progress = Progress::Goes(
        Flight { game: Episode { position, line, decisions, plies }, pending, owner },
    );
    assert(decides(before, progress, k as int, *table, seat, config.max_plies));
    progress
}

proof fn lemma_candidates_ok(legal: Seq<Move>)
    requires
        moves_ok(legal),
    ensures
        candidates_ok(candidates_of(legal)),
{
    let cand = candidates_of(legal);
    assert forall|j: int| 0 <= j < cand.len() implies (#[trigger] cand[j]).0 < POLICY_SIZE by {
        assert(0 <= legal[j].1 < POLICY_SIZE);
    }
}

// --- rows --------------------------------------------------------------------

/// The row of a decision in a game with the given result.
pub open spec fn decision_row(d: Decision, result: int) -> Seq<Real32> {
    d.state@ + d.mask@ + seq![
        whole(d.action as int) as u32,
        outcome_for(result, d.white_to_move),
    ]
}

/// The rows of the first `n` decisions, one after the other.
pub open spec fn rows_of(decisions: Seq<Decision>, result: int, n: nat) -> Seq<Real32>
    decreases n,
{
    if n == 0 {
        Seq::empty()
    } else {
        rows_of(decisions, result, (n - 1) as nat) + decision_row(decisions[n - 1], result)
    }
}

/// The result of a game; a game that reached the ply cap without an outcome is a draw.
pub open spec fn result_of(p: Position) -> int {
    match p.outcome {
        Some(r) => r as int,
        None => 0,
    }
}

/// Appends the rows of a game that is over, each scored with the result as the side to move
/// saw it. Gives the number of rows. The game keeps no decisions.
pub fn finalize(game: &mut Episode, buf: &mut Vec<Real32>) -> (k: usize)
    requires
        episode_wf(*old(game)),
    ensures
        k == old(game).decisions@.len(),
        final(buf)@ == old(buf)@ + rows_of(
            old(game).decisions@,
            result_of(old(game).position),
            old(game).decisions@.len(),
        ),
        final(buf)@.len() == old(buf)@.len() + k * ROW_FLOATS,
        final(game).decisions@.len() == 0,
        final(game).position == old(game).position,
        final(game).line == old(game).line,
        final(game).plies == old(game).plies,
{
    let ghost all = game.decisions@;
    let ghost start = buf@;
    let result: i8 = match game.position.outcome {
        Some(r) => r,
        None => 0,
    };
    let ow = result_to_bits(result);
    let mut rest: Vec<Decision> = Vec::new();
    std::mem::swap(&mut game.decisions, &mut rest);
    let mut k: usize = 0;
    assert(buf@ =~= start + rows_of(all, result as int, 0));
    assert(rest@ =~= all.skip(0));
    assert(rest@.len() == rest.len());
    while rest.len() > 0
        invariant
            k + rest@.len() == all.len(),
            all.len() <= usize::MAX,
            rest@ == all.skip(k as int),
            is_result(result as int),
            ow == crate::game::result_bits(result as int),
            forall|j: int| 0 <= j < all.len() ==> decision_wf(#[trigger] all[j]),
            buf@ == start + rows_of(all, result as int, k as nat),
            buf@.len() == start.len() + k * ROW_FLOATS,
        decreases rest@.len(),
    {
        let Decision { state, mask, action, white_to_move } = rest.remove(0);
        let ghost d = all[k as int];
        assert(decision_wf(d));
        let ghost before = buf@;
        let z = if white_to_move {
            ow
        } else {
            neg32(ow)
        };
        buf.extend_from_slice(state.as_slice());
        buf.extend_from_slice(mask.as_slice());
        buf.push(whole32(action));
        buf.push(z);
        proof {
            assert(buf@ =~= before + decision_row(d, result as int));
            assert(buf@ =~= start + rows_of(all, result as int, (k + 1) as nat));
            assert(rest@ =~= all.skip(k + 1));
            assert((k + 1) * ROW_FLOATS == k * ROW_FLOATS + ROW_FLOATS) by (nonlinear_arith);
        }
        k += 1;
    }
    k
}

/// A row tells the decision that it was written from, and what it was worth.
pub proof fn rows_tell_the_decision(d: Decision, result: int, e: Decision, other: int)
    requires
        decision_wf(d),
        decision_wf(e),
        decision_row(d, result) == decision_row(e, other),
    ensures
        d.state@ == e.state@,
        d.mask@ == e.mask@,
        d.action == e.action,
        outcome_for(result, d.white_to_move) == outcome_for(other, e.white_to_move),
{
    let x = decision_row(d, result);
    let y = decision_row(e, other);
    let s = ENC_LEN as int;
    let t = (ENC_LEN + POLICY_SIZE) as int;
    assert(x.subrange(0, s) =~= d.state@);
    assert(y.subrange(0, s) =~= e.state@);
    assert(x.subrange(s, t) =~= d.mask@);
    assert(y.subrange(s, t) =~= e.mask@);
    assert(x[t] == whole(d.action as int) as u32);
    assert(y[t] == whole(e.action as int) as u32);
    assert(x[t + 1] == outcome_for(result, d.white_to_move));
    assert(y[t + 1] == outcome_for(other, e.white_to_move));
    whole_numbers_fit(d.action as int);
    whole_numbers_fit(e.action as int);
    if d.action < e.action {
        whole_numbers_differ(d.action as int, e.action as int);
    }
    if e.action < d.action {
        whole_numbers_differ(e.action as int, d.action as int);
    }
}

/// Where a row holds what: the position first, then the mask of the legal moves, then the policy
/// index of the move as a number, and last what the game was worth to the side to move: one
/// when it won, minus one when it lost, and zero or minus zero in a draw.
pub proof fn rows_are_laid_out(d: Decision, result: int)
    requires
        decision_wf(d),
    ensures
        decision_row(d, result).len() == ENC_LEN + POLICY_SIZE + 2,
        forall|x: int|
            0 <= x < ENC_LEN ==> #[trigger] decision_row(d, result)[x] == d.state@[x],
        forall|x: int|
            0 <= x < POLICY_SIZE ==> #[trigger] decision_row(d, result)[ENC_LEN + x] == d.mask@[x],
        decision_row(d, result)[ENC_LEN + POLICY_SIZE] == whole(d.action as int),
        result > 0 && d.white_to_move || result < 0 && !d.white_to_move ==> decision_row(
            d,
            result,
        )[ENC_LEN + POLICY_SIZE + 1] == 0x3f80_0000,
        result > 0 && !d.white_to_move || result < 0 && d.white_to_move ==> decision_row(
            d,
            result,
        )[ENC_LEN + POLICY_SIZE + 1] == 0xbf80_0000,
        result == 0 && d.white_to_move ==> decision_row(d, result)[ENC_LEN + POLICY_SIZE + 1] == 0,
        result == 0 && !d.white_to_move ==> decision_row(d, result)[ENC_LEN + POLICY_SIZE + 1]
            == 0x8000_0000,
{
    whole_numbers_fit(d.action as int);
}

/// The rows of a game stand one after the other in the order of its decisions.
pub proof fn rows_follow_the_decisions(decisions: Seq<Decision>, result: int, n: nat, k: int)
    requires
        0 <= k < n <= decisions.len(),
        forall|j: int| 0 <= j < n ==> decision_wf(#[trigger] decisions[j]),
    ensures
        rows_of(decisions, result, n).len() == n * (ENC_LEN + POLICY_SIZE + 2),
        rows_of(decisions, result, n).subrange(
            k * (ENC_LEN + POLICY_SIZE + 2),
            (k + 1) * (ENC_LEN + POLICY_SIZE + 2),
        ) == decision_row(decisions[k], result),
    decreases n,
{
    let width = ENC_LEN + POLICY_SIZE + 2;
    assert(decision_wf(decisions[n - 1]));
    assert(n * width == (n - 1) * width + width) by (nonlinear_arith);
    assert((k + 1) * width == k * width + width) by (nonlinear_arith);
    assert(0 <= k * width) by (nonlinear_arith)
        requires
            0 <= k,
            0 <= width,
    ;
    let front = rows_of(decisions, result, (n - 1) as nat);
    if n == 1 {
        assert(front.len() == 0);
    } else {
        rows_follow_the_decisions(
            decisions,
            result,
            (n - 1) as nat,
            if k < n - 1 {
                k
            } else {
                0
            },
        );
    }
    let all = rows_of(decisions, result, n);
    assert(all == front + decision_row(decisions[n - 1], result));
    if k < n - 1 {
        assert((k + 1) * width <= (n - 1) * width) by (nonlinear_arith)
            requires
                k + 1 <= n - 1,
                0 <= width,
        ;
        assert(all.subrange(k * width, (k + 1) * width) =~= front.subrange(
            k * width,
            (k + 1) * width,
        ));
    } else {
        assert(all.subrange(k * width, (k + 1) * width) =~= decision_row(decisions[k], result));
    }
}

/// What a turn of a game leaves to do.
pub enum Turn {
    /// The game waits for its next policy.
    Waits(Flight),
    /// The game is over and gave this many rows.
    Over(usize),
}

/// A turn: the game goes on, or it is over and its rows are added to the buffer.
pub open spec fn turns<S: Sampler, T: Table>(
    before: Flight,
    turn: Turn,
    rows: (Seq<Real32>, Seq<Real32>),
    row: Seq<Real32>,
    config: Config,
    sampler: S,
    table: T,
    seat: u64,
) -> bool {
    exists|progress: Progress|
        {
            &&& #[trigger] takes_turn(before, progress, row, config, sampler, table, seat)
            &&& match (progress, turn) {
                (Progress::Goes(f), Turn::Waits(g)) => f == g && rows.1 == rows.0,
                (Progress::Over(g), Turn::Over(k)) => k == g.decisions@.len() && rows.1 == rows.0
                    + rows_of(g.decisions@, result_of(g.position), g.decisions@.len()),
                _ => false,
            }
        }
}

/// What a worker has collected: rows, one after the other, and how many they are.
pub struct Harvest {
    pub buf: Vec<Real32>,
    pub rows: usize,
}

/// The buffer holds whole rows, as many as were counted.
pub open spec fn harvest_wf(h: Harvest) -> bool {
    h.buf@.len() == h.rows * ROW_FLOATS
}

impl Harvest {
    /// Nothing collected yet.
    pub fn new() -> (h: Self)
        ensures
            harvest_wf(h),
            h.buf@.len() == 0,
            h.rows == 0,
    {
        Harvest { buf: Vec::new(), rows: 0 }
    }
}

/// Takes the turn of a game whose policy is row `j` of the batch. The rows of a game that is
/// over join the harvest.
pub fn take_turn<S: Sampler, T: Table>(
    flight: Flight,
    logits: &Vec<Real32>,
    j: usize,
    config: &Config,
    sampler: &S,
    table: &T,
    seat: u64,
    harvest: &mut Harvest,
) -> (turn: Turn)
    requires
        flight_wf(flight),
        (j + 1) * POLICY_SIZE <= logits@.len(),
        table_wf(*table),
        harvest_wf(*old(harvest)),
    ensures
        turns(
            flight,
            turn,
            (old(harvest).buf@, final(harvest).buf@),
            logits@.subrange(j * POLICY_SIZE, (j + 1) * POLICY_SIZE),
            *config,
            *sampler,
            *table,
            seat,
        ),
        harvest_wf(*final(harvest)),
        final(harvest).rows == old(harvest).rows + match turn {
            Turn::Waits(_) => 0,
            Turn::Over(k) => k as int,
        },
        turn matches Turn::Waits(f) ==> flight_wf(f) && f.game.plies == flight.game.plies + 1
            && f.game.plies < config.max_plies,
        turn matches Turn::Over(k) ==> k == flight.game.plies + 1,
{
    let ghost before = flight;
    let ghost held = harvest.rows;
    assert(logits@.len() == logits.len());
    assert(0 <= j * POLICY_SIZE <= (j + 1) * POLICY_SIZE) by (nonlinear_arith);
    assert((j + 1) * POLICY_SIZE == j * POLICY_SIZE + POLICY_SIZE) by (nonlinear_arith);
    let from: usize = j * POLICY_SIZE;
    let row = slice_subrange(logits.as_slice(), from, from + POLICY_SIZE);
    let progress = step(flight, row, config, sampler, table, seat);
    let ghost made = progress;
    assert(takes_turn(before, made, row@, *config, *sampler, *table, seat));
    match progress {
        Progress::Goes(f) => Turn::Waits(f),
        Progress::Over(g) => {
            let mut game = g;
            let k = finalize(&mut game, &mut harvest.buf);
            proof {
                let n = held + k;
                assert(harvest.buf@.len() == harvest.buf.len());
                assert(n * ROW_FLOATS == held * ROW_FLOATS + k * ROW_FLOATS) by (nonlinear_arith)
                    requires
                        n == held + k,
                ;
                assert(n <= n * ROW_FLOATS) by (nonlinear_arith)
                    requires
                        0 <= n,
                ;
            }
            harvest.rows = harvest.rows + k;
            Turn::Over(k)
        },
    }
}

/// The rows of all workers, and how many they are.
pub struct Cohort {
    pub buffers: Vec<Vec<Real32>>,
    pub n_rows: usize,
}

/// The buffers together hold as many rows as were counted.
pub open spec fn cohort_wf(c: Cohort) -> bool {
    flat(c.buffers@, c.buffers@.len()).len() == c.n_rows * ROW_FLOATS
}

impl Cohort {
    /// No rows yet.
    pub fn new() -> (c: Self)
        ensures
            cohort_wf(c),
            c.buffers@.len() == 0,
            c.n_rows == 0,
    {
        Cohort { buffers: Vec::new(), n_rows: 0 }
    }

    /// Adds what a worker has collected.
    pub fn gather(&mut self, harvest: Harvest)
        requires
            cohort_wf(*old(self)),
            harvest_wf(harvest),
            old(self).n_rows + harvest.rows <= usize::MAX,
        ensures
            cohort_wf(*final(self)),
            final(self).buffers@ == old(self).buffers@.push(harvest.buf),
            final(self).n_rows == old(self).n_rows + harvest.rows,
    {
        let ghost before = self.buffers@;
        let Harvest { buf, rows } = harvest;
        self.buffers.push(buf);
        proof {
            lemma_flat_push(before, buf, before.len());
            assert((self.n_rows + rows) * ROW_FLOATS == self.n_rows * ROW_FLOATS + rows
                * ROW_FLOATS) by (nonlinear_arith);
        }
        self.n_rows = self.n_rows + rows;
    }
}

// --- how many games ----------------------------------------------------------

/// Sizes of a run.
#[derive(Clone, Copy, PartialEq, Eq, Structural, Debug)]
pub struct Sizes {
    pub threads: usize,
    pub batch: usize,
    pub concurrency: usize,
}

/// The sizes of a run: at least one worker and one position per batch, and twice the batch in
/// flight unless it says otherwise, but never less than the batch.
pub fn sizes(config: &Config) -> (s: Sizes)
    requires
        config.concurrency == 0 ==> 2 * at_least(config.batch as int, 1) <= usize::MAX,
    ensures
        s.threads == at_least(config.threads as int, 1),
        s.batch == at_least(config.batch as int, 1),
        s.concurrency == if config.concurrency == 0 {
            2 * s.batch
        } else {
            at_least(config.concurrency as int, s.batch as int)
        },
{
    let threads = raise(config.threads, 1);
    let batch = raise(config.batch, 1);
    let concurrency: usize = if config.concurrency == 0 {
        2 * batch
    } else {
        raise(config.concurrency, batch)
    };
    Sizes { threads, batch, concurrency }
}

/// The worker that the `j`-th game belongs to: they take turns.
pub fn owner_of(j: usize, threads: usize) -> (owner: usize)
    requires
        threads > 0,
    ensures
        owner == j % threads,
        owner < threads,
{
    j % threads
}

/// How far a cohort has come.
#[derive(Clone, Copy, PartialEq, Eq, Structural, Debug)]
pub struct Tally {
    /// Rows collected.
    pub rows: usize,
    /// Games that are being played.
    pub in_flight: usize,
    /// Rows after which no new games are started.
    pub target: usize,
    /// Whether the last game is over.
    pub done: bool,
}

/// What to do when a game is over.
#[derive(Clone, Copy, PartialEq, Eq, Structural, Debug)]
pub enum Next {
    /// Start another one in its place.
    Replace,
    /// Start none.
    Retire,
}

/// The cohort is complete exactly when no game is being played.
pub open spec fn tally_wf(t: Tally) -> bool {
    t.done <==> t.in_flight == 0
}

/// What the tally becomes when a game with `k` rows is over: another game takes its place
/// until the target is reached.
pub open spec fn finished(t: Tally, k: int) -> Tally {
    let rows = (t.rows + k) as usize;
    if rows < t.target {
        Tally { rows, ..t }
    } else {
        Tally { rows, in_flight: (t.in_flight - 1) as usize, done: t.in_flight == 1, ..t }
    }
}

impl Tally {
    /// Nothing collected yet.
    pub fn new(target: usize, in_flight: usize) -> (t: Self)
        requires
            in_flight > 0,
        ensures
            tally_wf(t),
            t == (Tally { rows: 0, in_flight, target, done: false }),
    {
        Tally { rows: 0, in_flight, target, done: false }
    }

    /// A game with `k` rows is over.
    pub fn finish(&mut self, k: usize) -> (next: Next)
        requires
            tally_wf(*old(self)),
            old(self).in_flight > 0,
            old(self).rows + k <= usize::MAX,
        ensures
            tally_wf(*final(self)),
            *final(self) == finished(*old(self), k as int),
            next == if old(self).rows + k < old(self).target {
                Next::Replace
            } else {
                Next::Retire
            },
            next == Next::Replace <==> final(self).in_flight == old(self).in_flight,
            next == Next::Retire <==> final(self).rows >= final(self).target,
    {
        self.rows = self.rows + k;
        if self.rows < self.target {
            return Next::Replace;
        }
        self.in_flight = self.in_flight - 1;
        if self.in_flight == 0 {
            self.done = true;
        }
        Next::Retire
    }
}

/// What the tally becomes after games with the given numbers of rows are over, in order.
pub open spec fn tally_after(t: Tally, games: Seq<int>) -> Tally
    decreases games.len(),
{
    if games.len() == 0 {
        t
    } else {
        finished(tally_after(t, games.drop_last()), games.last())
    }
}

/// Games can end one after the other like this: each was being played, and the rows can be
/// counted.
pub open spec fn can_end(t: Tally, games: Seq<int>) -> bool
    decreases games.len(),
{
    games.len() == 0 || {
        let before = tally_after(t, games.drop_last());
        &&& can_end(t, games.drop_last())
        &&& before.in_flight > 0
        &&& games.last() >= 0
        &&& before.rows + games.last() <= usize::MAX
    }
}

/// A cohort that is complete has reached its target, and one that is below its target is
/// still being played by all its games.
pub proof fn complete_cohorts_reach_the_target(t: Tally, games: Seq<int>)
    requires
        tally_wf(t),
        t.in_flight > 0,
        can_end(t, games),
    ensures
        tally_wf(tally_after(t, games)),
        tally_after(t, games).target == t.target,
        tally_after(t, games).done ==> tally_after(t, games).rows >= t.target,
        tally_after(t, games).rows < t.target ==> tally_after(t, games).in_flight == t.in_flight,
    decreases games.len(),
{
    if games.len() > 0 {
        complete_cohorts_reach_the_target(t, games.drop_last());
    }
}

/// No game has more than `cap` rows.
pub open spec fn capped(games: Seq<int>, cap: int) -> bool {
    forall|j: int| 0 <= j < games.len() ==> #[trigger] games[j] <= cap
}

/// A cohort overshoots its target by less than the rows of one longest game for each game in
/// flight.
pub proof fn cohorts_stay_near_the_target(t: Tally, games: Seq<int>, cap: int)
    requires
        tally_wf(t),
        t.in_flight > 0,
        t.rows < t.target,
        can_end(t, games),
        capped(games, cap),
        0 <= cap,
    ensures
        ({
            let after = tally_after(t, games);
            &&& after.target == t.target
            &&& after.in_flight <= t.in_flight
            &&& after.rows < t.target + (t.in_flight - after.in_flight) * cap
            &&& after.rows < t.target + t.in_flight * cap
        }),
    decreases games.len(),
{
    let n = t.in_flight as int;
    if games.len() > 0 {
        let front = games.drop_last();
        assert forall|j: int| 0 <= j < front.len() implies #[trigger] front[j] <= cap by {
            assert(front[j] == games[j]);
        }
        cohorts_stay_near_the_target(t, front, cap);
        complete_cohorts_reach_the_target(t, front);
        let before = tally_after(t, front);
        let after = tally_after(t, games);
        let left = before.in_flight as int;
        assert(games.last() <= cap);
        assert((n - (left - 1)) * cap == (n - left) * cap + cap) by (nonlinear_arith);
        assert((n - after.in_flight) * cap <= n * cap) by (nonlinear_arith)
            requires
                0 <= after.in_flight <= n,
                0 <= cap,
        ;
    } else {
        assert((n - n) * cap == 0) by (nonlinear_arith);
        assert(0 <= n * cap) by (nonlinear_arith)
            requires
                0 <= n,
                0 <= cap,
        ;
    }
}

/// Puts the positions of waiting games together into a batch; the `j`-th game has row `j`.
pub fn flat_batch(items: &Vec<Flight>) -> (enc: Vec<Real32>)
    requires
        forall|j: int| 0 <= j < items@.len() ==> flight_wf(#[trigger] items@[j]),
    ensures
        enc@.len() == items@.len() * ENC_LEN,
        forall|j: int|
            0 <= j < items@.len() ==> #[trigger] row_of(enc@, j) == items@[j].pending.enc@,
{
    let mut enc: Vec<Real32> = Vec::new();
    let mut k: usize = 0;
    while k < items.len()
        invariant
            0 <= k <= items@.len(),
            forall|j: int| 0 <= j < items@.len() ==> flight_wf(#[trigger] items@[j]),
            enc@.len() == k * ENC_LEN,
            forall|j: int| 0 <= j < k ==> #[trigger] row_of(enc@, j) == items@[j].pending.enc@,
        decreases items@.len() - k,
    {
        let f = &items[k];
        assert(flight_wf(items@[k as int]));
        let ghost before = enc@;
        enc.extend_from_slice(f.pending.enc.as_slice());
        proof {
            assert(enc@ =~= before + f.pending.enc@);
            crate::batch::lemma_append_row(before, f.pending.enc@, k as int);
            assert forall|j: int| 0 <= j < k + 1 implies #[trigger] row_of(enc@, j)
                == items@[j].pending.enc@ by {
                if j < k {
                    assert(row_of(enc@, j) == row_of(before, j));
                }
            }
        }
        k += 1;
    }
    enc
}

/// What a turn leaves behind. A game that goes on adds nothing to the buffer. A game that is over
/// adds one row for each of its decisions, the last of which was made in this turn, in order,
/// behind what the buffer held; each is scored with the outcome of the last position, or as a draw
/// when that has none.
pub proof fn ended_games_are_harvested<S: Sampler, T: Table>(
    before: Flight,
    turn: Turn,
    rows: (Seq<Real32>, Seq<Real32>),
    row: Seq<Real32>,
    config: Config,
    sampler: S,
    table: T,
    seat: u64,
    j: int,
) -> (ended: Episode)
    requires
        flight_wf(before),
        turns(before, turn, rows, row, config, sampler, table, seat),
        0 <= j <= before.game.decisions@.len(),
    ensures
        turn is Waits ==> rows.1 == rows.0,
        turn matches Turn::Over(k) ==> {
            let width = ENC_LEN + POLICY_SIZE + 2;
            let result = match ended.position.outcome {
                Some(r) => r as int,
                None => 0,
            };
            &&& takes_turn(before, Progress::Over(ended), row, config, sampler, table, seat)
            &&& k == before.game.decisions@.len() + 1 == ended.decisions@.len()
            &&& rows.1.len() == rows.0.len() + k * width
            &&& rows.1.take(rows.0.len() as int) == rows.0
            &&& rows.1.subrange(
                rows.0.len() + j * width,
                rows.0.len() + (j + 1) * width,
            ) == decision_row(ended.decisions@[j], result)
        },
{
    let progress = choose|progress: Progress|
        {
            &&& #[trigger] takes_turn(before, progress, row, config, sampler, table, seat)
            &&& match (progress, turn) {
                (Progress::Goes(f), Turn::Waits(g)) => f == g && rows.1 == rows.0,
                (Progress::Over(g), Turn::Over(k)) => k == g.decisions@.len() && rows.1 == rows.0
                    + rows_of(g.decisions@, result_of(g.position), g.decisions@.len()),
                _ => false,
            }
        };
    turns_sharpen_with_the_plies(before, progress, row, config, sampler, table, seat);
    match progress {
        Progress::Over(g) => {
            let n = g.decisions@.len();
            let result = result_of(g.position);
            let more = rows_of(g.decisions@, result, n);
            let width = ENC_LEN + POLICY_SIZE + 2;
            assert forall|i: int| 0 <= i < n implies decision_wf(#[trigger] g.decisions@[i]) by {
                if i < n - 1 {
                    assert(g.decisions@.drop_last()[i] == before.game.decisions@[i]);
                    assert(decision_wf(before.game.decisions@[i]));
                } else {
                    assert(position_wf(before.game.position));
                    assert forall|x: int|
                        0 <= x < before.game.position.legal@.len() implies (
                    #[trigger] before.game.position.legal@[x]).1 < POLICY_SIZE by {}
                }
            }
            rows_follow_the_decisions(g.decisions@, result, n, j);
            assert((j + 1) * width <= n * width) by (nonlinear_arith)
                requires
                    j + 1 <= n,
                    0 <= width,
            ;
            assert(0 <= j * width <= (j + 1) * width) by (nonlinear_arith)
                requires
                    0 <= j,
                    0 <= width,
            ;
            assert(rows.1.take(rows.0.len() as int) =~= rows.0);
            assert(rows.1.subrange(
                rows.0.len() + j * width,
                rows.0.len() + (j + 1) * width,
            ) =~= more.subrange(j * width, (j + 1) * width));
            g
        },
        Progress::Goes(f) => f.game,
    }
}

/// [`step`] takes such a turn.
pub proof fn steps_are_turns<S: Sampler, T: Table>(
    flight: Flight,
    row: &[Real32],
    config: &Config,
    sampler: &S,
    table: &T,
    seat: u64,
    progress: Progress,
) -> (t: Real)
    requires
        flight_wf(flight),
        call_ensures(step::<S, T>, (flight, row, config, sampler, table, seat), progress),
    ensures
        call_ensures(
            S::temper,
            (
                sampler,
                config.temperature,
                config.temp_end,
                if flight.game.plies < 20 {
                    0usize
                } else if flight.game.plies < 60 {
                    (flight.game.plies - 20) as usize
                } else {
                    40usize
                },
            ),
            t,
        ),
        exists|k: int| #[trigger]
            is_sampled(flight.pending.cand@, row@, t, *sampler, flight.owner as u64, k) && decides(
                flight,
                progress,
                k,
                *table,
                seat,
                config.max_plies,
            ),
{
    let (t, k) = choose|t: Real, k: int|
        {
            &&& #[trigger] call_ensures(
                S::temper,
                (
                    sampler,
                    config.temperature,
                    config.temp_end,
                    anneal_steps(flight.game.plies as int) as usize,
                ),
                t,
            )
            &&& is_sampled(flight.pending.cand@, row@, t, *sampler, flight.owner as u64, k)
            &&& #[trigger] decides(flight, progress, k, *table, seat, config.max_plies)
        };
    assert(is_sampled(flight.pending.cand@, row@, t, *sampler, flight.owner as u64, k));
    t
}

/// Games belong to workers in turn: as many games in a row as there are workers belong to
/// different workers, beginning with the first, and the next game to the same worker again.
pub proof fn workers_take_turns(j: usize, threads: usize, mine: usize, next: usize)
    requires
        0 < threads,
        j + threads <= usize::MAX,
        call_ensures(owner_of, (j, threads), mine),
        call_ensures(owner_of, ((j + threads) as usize, threads), next),
    ensures
        next == mine,
        mine < threads,
        j < threads ==> mine == j,
{
    assert((j + threads) % (threads as int) == j as int % threads as int) by {
        vstd::arithmetic::div_mod::lemma_mod_add_multiples_vanish(j as int, threads as int);
    }
    if j < threads {
        vstd::arithmetic::div_mod::lemma_small_mod(j as nat, threads as nat);
    }
}

/// A run has a worker, room for a position, and never fewer games in flight than go into a batch.
pub proof fn runs_fill_their_batches(config: &Config, s: Sizes)
    requires
        call_ensures(sizes, (config,), s),
    ensures
        s.threads >= 1 && s.threads >= config.threads,
        s.batch >= 1 && s.batch >= config.batch,
        s.concurrency >= s.batch,
        config.concurrency >= s.batch ==> s.concurrency == config.concurrency,
        config.concurrency == 0 ==> s.concurrency == s.batch + s.batch,
{
}

} // verus!

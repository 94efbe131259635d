//! How many simulations go into each move of a game, whether it is in flight by itself or in
//! step with others.

use crate::arith::{Arithmetic, Evaluator, Table};
use crate::batch::{bare_roots, expands_roots, gathers, noise_stage, scatters, Leaf};
use crate::counting::{
    expansion_visits_nothing, lemma_backup_counts, lemma_batch_counts, lemma_kept_bound,
    lemma_noise_counts_nothing, lemma_roots_count_nothing, visits_kept,
};
use crate::engine::{
    applies, engine_wf, feeds, feeds_at, feeds_until, has_room, is_batch, is_new_engine, poll_step,
    polls, quiet_poll, steps_games, MctsEngine, Pending, Phase, Polled,
};
use crate::game::{game_wf, moves_on, Game, Position, Row};
use crate::ieee::{Real, Real32};
use crate::inflight::{
    absorbs, config_wf, inflight_wf, lemma_room, on_its_way, own_row, plays_on, rows_of, same_game,
    sims_done, stages, ticks, Advance, Config, GamePhase, InFlight, LeafKind,
};
use crate::policy::{is_noise, noise_needed, noise_step, noises};
use crate::search::{backs_up, descents_ascend, expands, path_within, walks};
use crate::tree::{nodes, visits_within, NodeView};
use vstd::prelude::*;

verus! {

/// One event in the life of a game in flight: it takes a step of its own, an answer comes in
/// for it, or the answer that came in is applied.
pub open spec fn lives_on<A: Arithmetic, T: Table>(
    before: InFlight,
    after: InFlight,
    config: Config,
    arith: A,
    table: T,
) -> bool {
    ||| on_its_way(before) && exists|outcome: Option<Advance>| #[trigger]
        ticks(before, after, outcome, config, arith, table)
    ||| before.leaf_ctx is Some && after == (InFlight { pending: after.pending, ..before })
    ||| before.leaf_ctx is Some && before.pending is Some && absorbs(
        before,
        after,
        before.leaf_ctx->0,
        before.pending->0,
        config,
        arith,
        table,
    )
}

/// The `k`-th event of the trace.
pub open spec fn lives_on_at<A: Arithmetic, T: Table>(
    trace: Seq<InFlight>,
    k: int,
    config: Config,
    arith: A,
    table: T,
) -> bool {
    lives_on(trace[k], trace[k + 1], config, arith, table)
}

/// The trace tells the life of a game from one move to the next: event by event, and no
/// move is played on the way.
pub open spec fn between_moves<A: Arithmetic, T: Table>(
    trace: Seq<InFlight>,
    config: Config,
    arith: A,
    table: T,
) -> bool {
    &&& trace.len() > 0
    &&& forall|k: int| 0 <= k < trace.len() ==> inflight_wf(#[trigger] trace[k], config)
    &&& forall|k: int|
        0 <= k < trace.len() - 1 ==> #[trigger] lives_on_at(trace, k, config, arith, table)
    &&& forall|k: int|
        0 <= k < trace.len() ==> (#[trigger] trace[k]).game.line@.len()
            == trace[0].game.line@.len()
}

/// Visits of the root.
pub open spec fn root_visits(g: InFlight) -> int {
    g.game.arena@[0].visit_count as int
}

/// Simulations of the search for the next move.
spec fn search_done(g: InFlight) -> int {
    match g.phase {
        GamePhase::NeedRootExpand => 0,
        GamePhase::Simulating(s) => s as int,
    }
}

proof fn lemma_noise_step_keeps_visits<A: Arithmetic, T: Table>(
    before: Seq<NodeView>,
    after: Seq<NodeView>,
    wanted: bool,
    arith: A,
    table: T,
    seat: u64,
    line: Vec<u16>,
)
    requires
        noise_step(before, after, wanted, arith, table, seat, line),
        before.len() > 0,
    ensures
        after.len() == before.len(),
        after[0].visit_count == before[0].visit_count,
{
    if wanted {
        let drawn = choose|drawn: Seq<Real>| #[trigger]
            noises(before, after, 0, drawn, arith) && is_noise(
                noise_needed(before[0]),
                table,
                seat,
                line,
                drawn,
            );
        assert(noises(before, after, 0, drawn, arith));
    }
}

/// An event that plays no move backs up as many values as it counts simulations.
proof fn lemma_events_keep_count<A: Arithmetic, T: Table>(
    before: InFlight,
    after: InFlight,
    config: Config,
    arith: A,
    table: T,
)
    requires
        config_wf(config),
        inflight_wf(before, config),
        lives_on(before, after, config, arith, table),
        after.game.line@.len() == before.game.line@.len(),
    ensures
        root_visits(after) - search_done(after) == root_visits(before) - search_done(before),
{
    let a = nodes(before.game.arena@);
    let b = nodes(after.game.arena@);
    let bound = sims_done(before, config.sims as int);
    lemma_room(
        before.game.history@.len() as int,
        config.sims as int,
        search_done(before),
    );
    assert(a[0] == before.game.arena@[0]@);
    if on_its_way(before) && exists|outcome: Option<Advance>| #[trigger]
        ticks(before, after, outcome, config, arith, table) {
        let outcome = choose|outcome: Option<Advance>| #[trigger]
            ticks(before, after, outcome, config, arith, table);
        match before.phase {
            GamePhase::NeedRootExpand => {
                if before.game.arena@[0].expanded {
                    lemma_noise_step_keeps_visits(
                        a,
                        b,
                        config.add_root_noise,
                        arith,
                        table,
                        before.id,
                        before.game.line,
                    );
                    assert(b[0] == after.game.arena@[0]@);
                }
            },
            GamePhase::Simulating(s) => {
                if s >= config.sims {
                    lemma_moves_lengthen_the_line(before, after, outcome, arith, table);
                } else if after != before {
                    let (path, handles, leaf) = choose|
                        path: Vec<usize>,
                        handles: Vec<u16>,
                        leaf: Position,
                    |
                        {
                            &&& #[trigger] walks(before.game.arena@, arith, path@, handles@)
                            &&& #[trigger] call_ensures(
                                T::look,
                                (&table, before.id, &before.game.line, &handles),
                                leaf,
                            )
                            &&& match leaf.terminal {
                                Some(value) => {
                                    &&& outcome is None
                                    &&& same_game(before, after)
                                    &&& after == (InFlight {
                                        game: after.game,
                                        phase: GamePhase::Simulating((s + 1) as usize),
                                        ..before
                                    })
                                    &&& backs_up(a, b, path@, value, arith)
                                },
                                None => {
                                    &&& outcome == Some(Advance::Eval)
                                    &&& stages(
                                        before,
                                        after,
                                        LeafKind::SimLeaf,
                                        path@,
                                        leaf,
                                    )
                                },
                            }
                        };
                    if leaf.terminal is Some {
                        descents_ascend(before.game.arena@, arith, path@, handles@);
                        assert(path_within(path@, a.len())) by {
                            assert forall|k: int| 0 <= k < path@.len() implies (
                            #[trigger] path@[k]) < a.len() by {
                                assert(path@[k] < before.game.arena@.len());
                            }
                        }
                        lemma_backup_counts(a, b, path@, leaf.terminal->0, arith, bound);
                        assert(b[0] == after.game.arena@[0]@);
                    }
                }
            },
        }
    } else if after == (InFlight { pending: after.pending, ..before }) {
    } else {
        let ctx = before.leaf_ctx->0;
        let res = before.pending->0;
        let leaf = ctx.path@.last() as int;
        assert(ctx.path@[ctx.path@.len() - 1] < a.len());
        match ctx.kind {
            LeafKind::RootExpand => {
                let mid = choose|mid: Seq<NodeView>| #[trigger]
                    expands(a, mid, 0, ctx.legal@, own_row(res), arith) && noise_step(
                        mid,
                        b,
                        config.add_root_noise,
                        arith,
                        table,
                        before.id,
                        before.game.line,
                    );
                expansion_visits_nothing(a, mid, 0, ctx.legal@, own_row(res), arith);
                lemma_noise_step_keeps_visits(
                    mid,
                    b,
                    config.add_root_noise,
                    arith,
                    table,
                    before.id,
                    before.game.line,
                );
                assert(mid[0].visit_count == a[0].visit_count);
            },
            LeafKind::SimLeaf => {
                let mid = choose|mid: Seq<NodeView>| #[trigger]
                    expands(a, mid, leaf, ctx.legal@, own_row(res), arith) && backs_up(
                        mid,
                        b,
                        ctx.path@,
                        res.value,
                        arith,
                    );
                expansion_visits_nothing(a, mid, leaf, ctx.legal@, own_row(res), arith);
                lemma_kept_bound(a, mid, bound);
                assert(path_within(ctx.path@, mid.len()));
                lemma_backup_counts(mid, b, ctx.path@, res.value, arith, bound);
                assert(mid[0].visit_count == a[0].visit_count);
            },
        }
        assert(b[0] == after.game.arena@[0]@);
    }
}

proof fn lemma_moves_lengthen_the_line<A: Arithmetic, T: Table>(
    before: InFlight,
    after: InFlight,
    outcome: Option<Advance>,
    arith: A,
    table: T,
)
    requires
        plays_on(before, after, outcome, arith, table),
    ensures
        after.game.line@.len() == before.game.line@.len() + 1,
        !after.game.done ==> after.phase == GamePhase::NeedRootExpand,
{
    let mid = choose|mid: Game| #[trigger]
        moves_on(before.game, mid, arith, table, before.id) && if mid.done {
            &&& outcome matches Some(Advance::Done(rows)) && rows_of(mid, rows@)
            &&& after == (InFlight { game: after.game, ..before })
            &&& after.game == (Game { history: after.game.history, ..mid })
            &&& after.game.history@.len() == 0
        } else {
            &&& outcome is None
            &&& after == (InFlight { game: mid, phase: GamePhase::NeedRootExpand, ..before })
        };
    assert(mid.line@.len() == before.game.line@.len() + 1);
    assert(mid.done == after.game.done);
}

/// Only a step of a game in the middle of a search plays a move.
proof fn lemma_moves_end_a_search<A: Arithmetic, T: Table>(
    before: InFlight,
    after: InFlight,
    config: Config,
    arith: A,
    table: T,
)
    requires
        inflight_wf(before, config),
        lives_on(before, after, config, arith, table),
        after.game.line@.len() != before.game.line@.len(),
    ensures
        search_done(before) == config.sims,
        before.phase is Simulating,
        !after.game.done ==> search_done(after) == 0,
{
    assert(on_its_way(before));
    let outcome = choose|outcome: Option<Advance>| #[trigger]
        ticks(before, after, outcome, config, arith, table);
    assert(before.phase matches GamePhase::Simulating(s) && s >= config.sims);
    lemma_moves_lengthen_the_line(before, after, outcome, arith, table);
}

proof fn lemma_trace_keeps_count<A: Arithmetic, T: Table>(
    trace: Seq<InFlight>,
    n: int,
    config: Config,
    arith: A,
    table: T,
)
    requires
        config_wf(config),
        between_moves(trace, config, arith, table),
        0 <= n < trace.len(),
    ensures
        root_visits(trace[n]) - search_done(trace[n]) == root_visits(trace[0]) - search_done(
            trace[0],
        ),
    decreases n,
{
    if n > 0 {
        lemma_trace_keeps_count(trace, n - 1, config, arith, table);
        assert(lives_on_at(trace, n - 1, config, arith, table));
        assert(inflight_wf(trace[n - 1], config));
        assert(trace[n - 1].game.line@.len() == trace[n].game.line@.len());
        lemma_events_keep_count(trace[n - 1], trace[n], config, arith, table);
    }
}

/// Between two moves of a game exactly as many simulations are backed up as the run asks for.
/// `before` plays a move, which leaves the first game of the trace; the last game of the trace
/// plays the next move, which leaves `after`. Then the root has `config.sims` more visits at the
/// end of the trace than at its beginning, whether its moves were kept from the tree of the
/// move before or were generated on the way.
pub proof fn every_move_takes_its_simulations<A: Arithmetic, T: Table>(
    before: InFlight,
    trace: Seq<InFlight>,
    after: InFlight,
    config: Config,
    arith: A,
    table: T,
)
    requires
        config_wf(config),
        inflight_wf(before, config),
        between_moves(trace, config, arith, table),
        lives_on(before, trace[0], config, arith, table),
        trace[0].game.line@.len() != before.game.line@.len(),
        lives_on(trace.last(), after, config, arith, table),
        after.game.line@.len() != trace.last().game.line@.len(),
    ensures
        trace.last().game.arena@[0].visit_count == trace[0].game.arena@[0].visit_count
            + config.sims,
{
    assert(inflight_wf(trace[0], config));
    assert(inflight_wf(trace[trace.len() - 1], config));
    lemma_moves_end_a_search(before, trace[0], config, arith, table);
    lemma_trace_keeps_count(trace, trace.len() - 1, config, arith, table);
    lemma_moves_end_a_search(trace.last(), after, config, arith, table);
}

/// The first move of a game takes as many simulations as the run asks for: the root of a new
/// game, which nothing was ever done to, has `config.sims` visits when the move is played.
pub proof fn the_first_move_takes_its_simulations<A: Arithmetic, T: Table>(
    trace: Seq<InFlight>,
    after: InFlight,
    config: Config,
    arith: A,
    table: T,
)
    requires
        config_wf(config),
        between_moves(trace, config, arith, table),
        !trace[0].game.arena@[0].expanded,
        trace[0].game.arena@[0].visit_count == 0,
        lives_on(trace.last(), after, config, arith, table),
        after.game.line@.len() != trace.last().game.line@.len(),
    ensures
        trace.last().game.arena@[0].visit_count == config.sims,
{
    assert(inflight_wf(trace[0], config));
    assert(inflight_wf(trace[trace.len() - 1], config));
    lemma_trace_keeps_count(trace, trace.len() - 1, config, arith, table);
    lemma_moves_end_a_search(trace.last(), after, config, arith, table);
}

// --- games in step -----------------------------------------------------------

/// Simulations of the search for the next moves.
spec fn engine_done(e: MctsEngine) -> int {
    match e.phase {
        Phase::RootExpand => 0,
        Phase::Sim(s) => s as int,
        Phase::SimsDone => e.sims as int,
    }
}

/// Game `i` of `after` has as many more visits at its root as simulations were done since
/// `before`, and no visit count exceeds what the search allows for.
spec fn counts_alike(before: MctsEngine, after: MctsEngine, i: int) -> bool {
    &&& after.sims == before.sims <= u32::MAX
    &&& after.seats == before.seats
    &&& after.games@.len() == before.games@.len()
    &&& engine_done(after) <= after.sims
    &&& !after.games@[i].done
    &&& after.games@[i].arena@.len() > 0
    &&& visits_within(
        nodes(after.games@[i].arena@),
        u32::MAX - after.sims + engine_done(after),
    )
    &&& after.games@[i].arena@[0].visit_count - engine_done(after)
        == before.games@[i].arena@[0].visit_count - engine_done(before)
}

proof fn lemma_polls_keep_count<A: Arithmetic, T: Table>(
    start: MctsEngine,
    before: MctsEngine,
    after: MctsEngine,
    out: Option<Polled>,
    i: int,
    arith: A,
    table: T,
)
    requires
        0 <= i < start.games@.len(),
        counts_alike(start, before, i),
        poll_step(before, after, out, arith, table),
    ensures
        counts_alike(start, after, i),
{
    assert(before.games@.len() == before.games.len());
    match before.phase {
        Phase::RootExpand => {
            if bare_roots(before.games@, before.games@.len()).len() == 0 {
                lemma_noise_counts_nothing(
                    before.games@,
                    after.games@,
                    before.seats@,
                    before.add_root_noise,
                    i,
                    arith,
                    table,
                );
                lemma_kept_root(before.games@[i], after.games@[i], u32::MAX - before.sims);
            }
        },
        Phase::Sim(s) => {
            if s < before.sims && after != before {
                let (leaves, enc, rows) = choose|leaves: Vec<Leaf>, enc: Seq<Real32>, rows: int|
                    {
                        &&& #[trigger] gathers(
                            before.games@,
                            before.seats@,
                            leaves@,
                            enc,
                            rows,
                            arith,
                            table,
                        )
                        &&& if rows == 0 {
                            &&& out is None
                            &&& after == (MctsEngine {
                                games: after.games,
                                phase: Phase::Sim((s + 1) as usize),
                                ..before
                            })
                            &&& scatters(
                                before.games@,
                                after.games@,
                                leaves@,
                                Seq::empty(),
                                Seq::empty(),
                                arith,
                            )
                        } else {
                            &&& out matches Some(polled) && is_batch(polled, enc, rows)
                            &&& after == (MctsEngine {
                                pending: Pending::Leaves(leaves),
                                ..before
                            })
                        }
                    };
                if rows == 0 {
                    lemma_batch_counts(
                        before.games@,
                        after.games@,
                        before.seats@,
                        leaves@,
                        enc,
                        rows,
                        Seq::empty(),
                        Seq::empty(),
                        i,
                        arith,
                        table,
                        u32::MAX - before.sims + s,
                    );
                }
            }
        },
        Phase::SimsDone => {},
    }
}

proof fn lemma_kept_root(before: Game, after: Game, bound: int)
    requires
        visits_kept(nodes(before.arena@), nodes(after.arena@)),
        before.arena@.len() > 0,
        visits_within(nodes(before.arena@), bound),
        0 <= bound,
    ensures
        after.arena@.len() > 0,
        after.arena@[0].visit_count == before.arena@[0].visit_count,
        visits_within(nodes(after.arena@), bound),
{
    lemma_kept_bound(nodes(before.arena@), nodes(after.arena@), bound);
    assert(nodes(before.arena@)[0] == before.arena@[0]@);
    assert(nodes(after.arena@)[0] == after.arena@[0]@);
}

proof fn lemma_quiet_polls_keep_count<A: Arithmetic, T: Table>(
    start: MctsEngine,
    trace: Seq<MctsEngine>,
    n: int,
    i: int,
    arith: A,
    table: T,
)
    requires
        0 <= i < start.games@.len(),
        0 <= n < trace.len(),
        counts_alike(start, trace[0], i),
        forall|k: int| 0 <= k < trace.len() - 1 ==> #[trigger] quiet_poll(trace, k, arith, table),
    ensures
        counts_alike(start, trace[n], i),
    decreases n,
{
    if n > 0 {
        lemma_quiet_polls_keep_count(start, trace, n - 1, i, arith, table);
        assert(quiet_poll(trace, n - 1, arith, table));
        lemma_polls_keep_count(start, trace[n - 1], trace[n], None, i, arith, table);
    }
}

/// A poll leads to a last step that comes to an answer.
proof fn lemma_poll_keeps_count<A: Arithmetic, T: Table>(
    start: MctsEngine,
    before: MctsEngine,
    after: MctsEngine,
    out: Polled,
    i: int,
    arith: A,
    table: T,
) -> (last: MctsEngine)
    requires
        0 <= i < start.games@.len(),
        counts_alike(start, before, i),
        polls(before, after, out, arith, table),
    ensures
        counts_alike(start, last, i),
        counts_alike(start, after, i),
        poll_step(last, after, Some(out), arith, table),
{
    let trace = choose|trace: Seq<MctsEngine>|
        {
            &&& trace.len() > 0
            &&& trace[0] == before
            &&& forall|k: int|
                0 <= k < trace.len() - 1 ==> #[trigger] quiet_poll(trace, k, arith, table)
            &&& #[trigger] poll_step(trace.last(), after, Some(out), arith, table)
        };
    lemma_quiet_polls_keep_count(start, trace, trace.len() - 1, i, arith, table);
    lemma_polls_keep_count(start, trace.last(), after, Some(out), i, arith, table);
    trace.last()
}

proof fn lemma_feeds_keep_count<A: Arithmetic, T: Table, E: Evaluator>(
    start: MctsEngine,
    before: MctsEngine,
    after: MctsEngine,
    i: int,
    arith: A,
    table: T,
    net: E,
)
    requires
        0 <= i < start.games@.len(),
        counts_alike(start, before, i),
        feeds(before, after, arith, table, net),
    ensures
        counts_alike(start, after, i),
{
    let (mid, enc, rows, out) = choose|
        mid: MctsEngine,
        enc: Vec<Real32>,
        rows: usize,
        out: (Vec<Real32>, Vec<Real>),
    |
        {
            &&& #[trigger] polls(before, mid, Ok(Some((enc, rows))), arith, table)
            &&& #[trigger] call_ensures(E::eval, (&net, &enc, rows), out)
            &&& applies(mid, after, out.0@, out.1@, arith, table)
        };
    let last = lemma_poll_keeps_count(start, before, mid, Ok(Some((enc, rows))), i, arith, table);
    assert(mid.games@.len() == mid.games.len());
    match mid.pending {
        Pending::Nothing => {},
        Pending::Roots(need) => {
            assert(last.phase == Phase::RootExpand);
            let grown = choose|grown: Seq<Game>| #[trigger]
                expands_roots(mid.games@, grown, need@, out.0@, arith) && noise_stage(
                    grown,
                    after.games@,
                    mid.seats@,
                    mid.add_root_noise,
                    arith,
                    table,
                );
            lemma_roots_count_nothing(mid.games@, grown, need@, out.0@, i, arith);
            lemma_kept_root(mid.games@[i], grown[i], u32::MAX - mid.sims);
            lemma_noise_counts_nothing(
                grown,
                after.games@,
                mid.seats@,
                mid.add_root_noise,
                i,
                arith,
                table,
            );
            lemma_kept_root(grown[i], after.games@[i], u32::MAX - mid.sims);
        },
        Pending::Leaves(leaves) => {
            match last.phase {
                Phase::Sim(s) => {
                    let (found, rows_enc, n) = choose|
                        leaves: Vec<Leaf>,
                        enc: Seq<Real32>,
                        rows: int,
                    |
                        {
                            &&& #[trigger] gathers(
                                last.games@,
                                last.seats@,
                                leaves@,
                                enc,
                                rows,
                                arith,
                                table,
                            )
                            &&& if rows == 0 {
                                &&& false
                            } else {
                                &&& mid == (MctsEngine {
                                    pending: Pending::Leaves(leaves),
                                    ..last
                                })
                            }
                        };
                    lemma_batch_counts(
                        mid.games@,
                        after.games@,
                        mid.seats@,
                        leaves@,
                        rows_enc,
                        n,
                        out.0@,
                        out.1@,
                        i,
                        arith,
                        table,
                        u32::MAX - mid.sims + s,
                    );
                },
                _ => {},
            }
        },
    }
}

proof fn lemma_chains_keep_count<A: Arithmetic, T: Table, E: Evaluator>(
    chain: Seq<MctsEngine>,
    n: int,
    i: int,
    arith: A,
    table: T,
    net: E,
)
    requires
        0 <= i < chain[0].games@.len(),
        0 <= n < chain.len(),
        counts_alike(chain[0], chain[0], i),
        forall|k: int| 0 <= k < chain.len() - 1 ==> #[trigger] feeds_at(chain, k, arith, table, net),
    ensures
        counts_alike(chain[0], chain[n], i),
    decreases n,
{
    if n > 0 {
        lemma_chains_keep_count(chain, n - 1, i, arith, table, net);
        assert(feeds_at(chain, n - 1, arith, table, net));
        lemma_feeds_keep_count(chain[0], chain[n - 1], chain[n], i, arith, table, net);
    }
}

/// Games in step are searched with as many simulations per move as the engine is set to. `moved`
/// is an engine whose games have just played a move; batches lead from there to where a poll
/// gives none. Then every game that is being played has so many more visits at its root,
/// whether its moves were kept from the tree of the move before or were generated on the way.
pub proof fn games_in_step_take_their_simulations<A: Arithmetic, T: Table, E: Evaluator>(
    before: MctsEngine,
    moved: MctsEngine,
    parts: Seq<Seq<Row>>,
    chain: Seq<MctsEngine>,
    after: MctsEngine,
    i: int,
    arith: A,
    table: T,
    net: E,
)
    requires
        steps_games(before, moved, parts, arith, table),
        engine_wf(moved),
        has_room(moved),
        feeds_until(chain, moved, after, Ok(None), arith, table, net),
        0 <= i < moved.games@.len(),
        !moved.games@[i].done,
    ensures
        !after.games@[i].done,
        after.games@[i].arena@[0].visit_count == moved.games@[i].arena@[0].visit_count
            + moved.sims,
{
    lemma_search_counts(chain, moved, after, i, arith, table, net);
}

/// The first search of an engine gives every root as many visits as there are simulations.
pub proof fn new_games_take_their_simulations<A: Arithmetic, T: Table, E: Evaluator>(
    before: MctsEngine,
    sims: usize,
    seed: u64,
    noise: bool,
    chain: Seq<MctsEngine>,
    after: MctsEngine,
    i: int,
    arith: A,
    table: T,
    net: E,
)
    requires
        is_new_engine(before, sims, seed, noise),
        feeds_until(chain, before, after, Ok(None), arith, table, net),
        0 <= i < before.games@.len(),
        !before.games@[i].done,
    ensures
        !after.games@[i].done,
        after.games@[i].arena@[0].visit_count == before.games@[i].arena@[0].visit_count + sims,
{
    lemma_search_counts(chain, before, after, i, arith, table, net);
}

proof fn lemma_search_counts<A: Arithmetic, T: Table, E: Evaluator>(
    chain: Seq<MctsEngine>,
    before: MctsEngine,
    after: MctsEngine,
    i: int,
    arith: A,
    table: T,
    net: E,
)
    requires
        before.phase == Phase::RootExpand,
        engine_wf(before),
        has_room(before),
        feeds_until(chain, before, after, Ok(None), arith, table, net),
        0 <= i < before.games@.len(),
        !before.games@[i].done,
    ensures
        !after.games@[i].done,
        after.games@[i].arena@[0].visit_count == before.games@[i].arena@[0].visit_count
            + before.sims,
{
    assert(game_wf(before.games@[i]));
    assert(visits_within(nodes(before.games@[i].arena@), u32::MAX - before.sims));
    lemma_chains_keep_count(chain, chain.len() - 1, i, arith, table, net);
    let last = lemma_poll_keeps_count(before, chain.last(), after, Ok(None), i, arith, table);
    assert(last.phase == Phase::SimsDone);
}

} // verus!

//! Self-play of many games in step, one batch of evaluations at a time.
//!
//! The engine asks for a batch, gets the answer, and so on until the search for the next
//! move is done in every game. Then every game plays its move.

use crate::arith::{answers_fit, softmax_fits, table_wf, Arithmetic, Evaluator, Table};
use crate::batch::{
    all_grow, all_visits_within, bare_roots, encode_roots, expand_roots, expands_roots, find_full,
    check_leaves, find_full_root, games_wf, gather_leaves, gathers, is_root_batch, keeps_shape,
    leaf_fits, leaf_wf, leaves_fit, leaves_have_their_row, leaves_wf, lemma_all_grow,
    lemma_bare_roots, lemma_no_growth, lemma_wider, noise_roots, noise_stage, root_fits, roots_fit,
    roots_to_expand, rows_in, same_but_tree, scatter_leaves, scatters, shapes_kept, visits_grow,
    Halt, Leaf,
};
use crate::game::{
    advance_subtree, advances, finalize_rows, game_wf, moves_on, position_wf, row_wf, rows_wf,
    step_move, Game, Position, Row, MAX_PLIES,
};
use crate::ieee::{Real, Real32};
use crate::inflight::rows_of;
use crate::policy::{is_policy, is_sample, sample_move, visits_to_pi};
use crate::search::blocked;
use crate::tree::{arena_wf, child, fresh_tree, nodes, visits_within, NodeView, POLICY_SIZE};
use vstd::prelude::*;

verus! {

/// Where the search for the next moves stands.
#[derive(Clone, Copy, PartialEq, Eq, Structural, Debug)]
pub enum Phase {
    /// The moves at the roots are to be generated.
    RootExpand,
    /// So many simulations are done.
    Sim(usize),
    /// All simulations are done.
    SimsDone,
}

/// The batch whose evaluation is outstanding.
pub enum Pending {
    /// There is none.
    Nothing,
    /// The roots of these games.
    Roots(Vec<usize>),
    /// These leaves.
    Leaves(Vec<Leaf>),
}

/// Many games that are searched and played in step.
pub struct MctsEngine {
    pub games: Vec<Game>,
    /// The seat of each game at the table.
    pub seats: Vec<u64>,
    /// Simulations per move.
    pub sims: usize,
    pub add_root_noise: bool,
    /// Seed of the random numbers.
    pub seed: u64,
    pub phase: Phase,
    pub pending: Pending,
    /// Training rows of finished games.
    pub results: Vec<Row>,
    /// How many games these rows belong to: those that ended since the rows were last taken.
    pub finished: usize,
}

/// The pending batch belongs to the games as they are, so that its answer can be applied.
pub open spec fn pending_wf(e: MctsEngine) -> bool {
    match e.pending {
        Pending::Nothing => true,
        Pending::Roots(need) => ascend_below(need@, e.games@.len() as int),
        Pending::Leaves(leaves) => {
            &&& leaves_wf(e.games@, leaves@)
            &&& e.phase matches Phase::Sim(s) ==> s < e.sims
        },
    }
}

/// Everything about an engine fits together. Of a batch that was never answered nothing is asked:
/// the next batch takes its place.
pub open spec fn engine_wf(e: MctsEngine) -> bool {
    &&& games_wf(e.games@)
    &&& forall|i: int|
        0 <= i < e.games@.len() && !(#[trigger] e.games@[i]).done ==> e.games@[i].history@.len()
            < MAX_PLIES
    &&& e.seats@ == Seq::new(e.games@.len(), |i: int| i as u64)
    &&& e.sims <= u32::MAX
    &&& e.phase matches Phase::Sim(s) ==> s <= e.sims
    &&& e.finished <= e.results@.len()
    &&& e.results@.len() > 0 ==> e.finished > 0
    &&& rows_wf(e.results@)
}

/// Simulations still to come in the search for the next moves.
pub open spec fn sims_left(e: MctsEngine) -> int {
    match e.phase {
        Phase::RootExpand => e.sims as int,
        Phase::Sim(s) => e.sims - s,
        Phase::SimsDone => 0,
    }
}

/// The visit counts have room for the rest of the search.
pub open spec fn has_room(e: MctsEngine) -> bool {
    all_visits_within(e.games@, u32::MAX - sims_left(e))
}

/// Seats numbered from zero.
fn number_seats(n: usize) -> (seats: Vec<u64>)
    ensures
        seats@ == Seq::new(n as nat, |i: int| i as u64),
{
    let mut seats: Vec<u64> = Vec::new();
    let mut i: usize = 0;
    while i < n
        invariant
            0 <= i <= n,
            seats@ == Seq::new(i as nat, |k: int| k as u64),
        decreases n - i,
    {
        seats.push(i as u64);
        i += 1;
        assert(seats@ =~= Seq::new(i as nat, |k: int| k as u64));
    }
    seats
}

/// A game that has just begun at the given position.
pub open spec fn is_new_game(g: Game, position: Position) -> bool {
    &&& game_wf(g)
    &&& g.position == position
    &&& g.line@.len() == 0
    &&& nodes(g.arena@) == fresh_tree()
    &&& g.history@.len() == 0
    &&& !g.done
    &&& g.result == 0
}

/// An engine whose games have just begun.
pub open spec fn is_new_engine(
    e: MctsEngine,
    sims: usize,
    seed: u64,
    add_root_noise: bool,
) -> bool {
    &&& engine_wf(e)
    &&& has_room(e)
    &&& e.sims == sims
    &&& e.seed == seed
    &&& e.add_root_noise == add_root_noise
    &&& e.phase == Phase::RootExpand
    &&& e.pending == Pending::Nothing
    &&& e.results@.len() == 0
    &&& e.finished == 0
}

impl MctsEngine {
    /// An engine for `n_games` new games.
    pub fn new<T: Table>(
        n_games: usize,
        sims: usize,
        seed: u64,
        add_root_noise: bool,
        table: &T,
    ) -> (e: Self)
        requires
            table_wf(*table),
            sims <= u32::MAX,
        ensures
            is_new_engine(e, sims, seed, add_root_noise),
            e.games@.len() == n_games,
            forall|i: int|
                0 <= i < n_games ==> is_new_game(#[trigger] e.games@[i], e.games@[i].position)
                    && call_ensures(T::start, (table, i as u64, None), e.games@[i].position),
    {
        let mut games: Vec<Game> = Vec::new();
        let mut i: usize = 0;
        while i < n_games
            invariant
                0 <= i <= n_games,
                table_wf(*table),
                games@.len() == i,
                forall|k: int|
                    0 <= k < i ==> is_new_game(#[trigger] games@[k], games@[k].position)
                        && call_ensures(T::start, (table, k as u64, None), games@[k].position),
            decreases n_games - i,
        {
            let position = table.start(i as u64, None);
            games.push(Game::from_board(position));
            i += 1;
        }
        let e = MctsEngine {
            games,
            seats: number_seats(n_games),
            sims,
            add_root_noise,
            seed,
            phase: Phase::RootExpand,
            pending: Pending::Nothing,
            results: Vec::new(),
            finished: 0,
        };
        assert forall|i: int| 0 <= i < e.games@.len() implies visits_within(
            #[trigger] nodes(e.games@[i].arena@),
            u32::MAX - sims,
        ) by {
            assert(is_new_game(e.games@[i], e.games@[i].position));
        }
        e
    }

    /// An engine for games that start from the given positions.
    pub fn from_fens(
        positions: Vec<Position>,
        sims: usize,
        seed: u64,
        add_root_noise: bool,
    ) -> (e: Self)
        requires
            sims <= u32::MAX,
            forall|i: int|
                0 <= i < positions@.len() ==> position_wf(#[trigger] positions@[i]),
        ensures
            is_new_engine(e, sims, seed, add_root_noise),
            e.games@.len() == positions@.len(),
            forall|i: int|
                0 <= i < positions@.len() ==> is_new_game(#[trigger] e.games@[i], positions@[i]),
    {
        let n: usize = positions.len();
        let ghost all = positions@;
        let mut rest = positions;
        let mut games: Vec<Game> = Vec::new();
        assert(rest@ =~= all.skip(0));
        while rest.len() > 0
            invariant
                games@.len() + rest@.len() == all.len(),
                rest@ == all.skip(games@.len() as int),
                forall|i: int|
                    0 <= i < all.len() ==> position_wf(#[trigger] all[i]),
                forall|k: int| 0 <= k < games@.len() ==> is_new_game(#[trigger] games@[k], all[k]),
            decreases rest@.len(),
        {
            let position = rest.remove(0);
            assert(position == all[games@.len() as int]);
            games.push(Game::from_board(position));
            assert(rest@ =~= all.skip(games@.len() as int));
        }
        let e = MctsEngine {
            games,
            seats: number_seats(n),
            sims,
            add_root_noise,
            seed,
            phase: Phase::RootExpand,
            pending: Pending::Nothing,
            results: Vec::new(),
            finished: 0,
        };
        assert forall|i: int| 0 <= i < e.games@.len() implies visits_within(
            #[trigger] nodes(e.games@[i].arena@),
            u32::MAX - sims,
        ) by {
            assert(is_new_game(e.games@[i], all[i]));
        }
        e
    }
}

// --- asking for batches ------------------------------------------------------

/// What a poll of the engine gives: a batch with its number of rows, or nothing when the
/// search is done.
pub type Polled = Result<Option<(Vec<Real32>, usize)>, Halt>;

/// A polled batch.
pub open spec fn is_batch(out: Polled, enc: Seq<Real32>, rows: int) -> bool {
    out matches Ok(Some((e, m))) && e@ == enc && m == rows
}

/// The next simulation of every game leads from `before` to `after`. When every leaf is
/// finished, it is completed at once; otherwise its evaluation is asked for.
pub open spec fn sim_polled<A: Arithmetic, T: Table>(
    before: MctsEngine,
    after: MctsEngine,
    s: usize,
    out: Option<Polled>,
    arith: A,
    table: T,
) -> bool {
    exists|leaves: Vec<Leaf>, enc: Seq<Real32>, rows: int|
        {
            &&& #[trigger] gathers(
                before.games@,
                before.seats@,
                leaves@,
                enc,
                rows,
                arith,
                table,
            )
            &&& if rows == 0 {
                &&& out is None
                &&& after == (MctsEngine {
                    games: after.games,
                    phase: Phase::Sim((s + 1) as usize),
                    ..before
                })
                &&& scatters(
                    before.games@,
                    after.games@,
                    leaves@,
                    Seq::empty(),
                    Seq::empty(),
                    arith,
                )
            } else {
                &&& out matches Some(polled) && is_batch(polled, enc, rows)
                &&& after == (MctsEngine { pending: Pending::Leaves(leaves), ..before })
            }
        }
}

/// One step towards the next batch leads from `before` to `after`; `out` is `None` when
/// the engine has not come to an answer yet.
pub open spec fn poll_step<A: Arithmetic, T: Table>(
    before: MctsEngine,
    after: MctsEngine,
    out: Option<Polled>,
    arith: A,
    table: T,
) -> bool {
    match before.phase {
        Phase::RootExpand => {
            let need = bare_roots(before.games@, before.games@.len());
            if need.len() == 0 {
                &&& out is None
                &&& after == (MctsEngine { games: after.games, phase: Phase::Sim(0), ..before })
                &&& noise_stage(
                    before.games@,
                    after.games@,
                    before.seats@,
                    before.add_root_noise,
                    arith,
                    table,
                )
            } else {
                &&& out matches Some(Ok(Some((enc, rows)))) && rows == need.len() && is_root_batch(
                    before.games@,
                    need,
                    enc@,
                )
                &&& after.pending matches Pending::Roots(v) && v@ == need
                &&& after == (MctsEngine { pending: after.pending, ..before })
            }
        },
        Phase::Sim(s) => if s >= before.sims {
            out is None && after == (MctsEngine { phase: Phase::SimsDone, ..before })
        } else {
            ||| {
                &&& out matches Some(Err(Halt::Stuck(i))) && i < before.games@.len()
                    && !before.games@[i as int].done && blocked(
                    before.games@[i as int].arena@,
                    arith,
                )
                &&& after == before
            }
            ||| sim_polled(before, after, s, out, arith, table)
        },
        Phase::SimsDone => out == Some::<Polled>(Ok(None)) && after == before,
    }
}

/// What holds after a poll.
pub open spec fn polled_wf(e: MctsEngine, out: Polled) -> bool {
    match out {
        Ok(Some((enc, rows))) => pending_wf(e) && match e.pending {
            Pending::Nothing => false,
            Pending::Roots(need) => {
                &&& e.phase == Phase::RootExpand
                &&& rows == need@.len()
                &&& need@.len() > 0
            },
            Pending::Leaves(leaves) => {
                &&& e.phase matches Phase::Sim(s) && s < e.sims
                &&& rows == rows_in(leaves@)
            },
        },
        Ok(None) => e.phase == Phase::SimsDone,
        Err(_) => true,
    }
}

/// Stages of the search still to come.
pub open spec fn stages_left(e: MctsEngine) -> int {
    match e.phase {
        Phase::RootExpand => e.sims + 2,
        Phase::Sim(s) => e.sims - s + 1,
        Phase::SimsDone => 0,
    }
}

/// The games and their number are the same, but for the trees.
pub open spec fn same_table(before: MctsEngine, after: MctsEngine) -> bool {
    &&& after.games@.len() == before.games@.len()
    &&& forall|i: int|
        0 <= i < before.games@.len() ==> same_but_tree(
            before.games@[i],
            #[trigger] after.games@[i],
        )
    &&& after.seats == before.seats
    &&& after.sims == before.sims
    &&& after.seed == before.seed
    &&& after.add_root_noise == before.add_root_noise
    &&& after.results == before.results
    &&& after.finished == before.finished
}

impl MctsEngine {
    /// Mixes noise into the priors at the roots, when the engine is to do so.
    fn apply_root_noise<A: Arithmetic, T: Table>(&mut self, arith: &A, table: &T)
        requires
            games_wf(old(self).games@),
            old(self).seats@.len() == old(self).games@.len(),
        ensures
            noise_stage(
                old(self).games@,
                final(self).games@,
                old(self).seats@,
                old(self).add_root_noise,
                *arith,
                *table,
            ),
            *final(self) == (MctsEngine { games: final(self).games, ..*old(self) }),
            shapes_kept(old(self).games@, final(self).games@),
            all_grow(old(self).games@, final(self).games@, 0),
    {
        proof {
            lemma_no_growth(self.games@);
        }
        if self.add_root_noise {
            noise_roots(&mut self.games, &self.seats, arith, table);
        }
    }

    /// Takes one step towards the next batch.
    fn step_search<A: Arithmetic, T: Table>(&mut self, arith: &A, table: &T) -> (out: Option<Polled>)
        requires
            engine_wf(*old(self)),
            has_room(*old(self)),
            softmax_fits(*arith),
            table_wf(*table),
        ensures
            poll_step(*old(self), *final(self), out, *arith, *table),
            engine_wf(*final(self)),
            has_room(*final(self)),
            same_table(*old(self), *final(self)),
            match out {
                None => final(self).pending == old(self).pending && stages_left(*final(self))
                    < stages_left(*old(self)),
                Some(polled) => polled_wf(*final(self), polled) && final(self).phase
                    == old(self).phase,
            },
            !(out matches Some(Ok(Some(_)))) ==> final(self).pending == old(self).pending,
    {
        let ghost before = *self;
        match self.phase {
            Phase::RootExpand => {
                let need = roots_to_expand(&self.games);
                proof {
                    assert(self.games@.len() == self.games.len());
                    lemma_bare_roots(self.games@, self.games@.len());
                }
                if need.len() == 0 {
                    self.apply_root_noise(arith, table);
                    self.phase = Phase::Sim(0);
                    proof {
                        lemma_kept(before, *self);
                        lemma_all_grow(before.games@, self.games@, 0, u32::MAX - sims_left(before));
                    }
                    return None;
                }
                let rows: usize = need.len();
                let enc = encode_roots(&self.games, &need);
                self.pending = Pending::Roots(need);
                Some(Ok(Some((enc, rows))))
            },
            Phase::Sim(s) => {
                if s >= self.sims {
                    self.phase = Phase::SimsDone;
                    return None;
                }
                match gather_leaves(&self.games, &self.seats, arith, table) {
                    Err(halt) => Some(Err(halt)),
                    Ok((leaves, enc, rows)) => {
                        let ghost all = leaves@;
                        assert(gathers(
                            before.games@,
                            before.seats@,
                            leaves@,
                            enc@,
                            rows as int,
                            *arith,
                            *table,
                        ));
                        if rows == 0 {
                            let none: Vec<Real32> = Vec::new();
                            let nothing: Vec<Real> = Vec::new();
                            proof {
                                assert forall|k: int|
                                    0 <= k < leaves@.len() implies #[trigger] leaf_fits(
                                    self.games@,
                                    leaves@[k],
                                ) by {
                                    assert(leaf_wf(
                                        self.games@,
                                        leaves@[k],
                                        rows_in(leaves@) as int,
                                    ));
                                }
                                lemma_wider(self.games@, u32::MAX - sims_left(before), u32::MAX - 1);
                            }
                            scatter_leaves(&mut self.games, &leaves, &none, &nothing, arith);
                            self.phase = Phase::Sim(s + 1);
                            proof {
                                assert(none@ =~= Seq::<Real32>::empty());
                                assert(nothing@ =~= Seq::<Real>::empty());
                                lemma_kept(before, *self);
                                lemma_all_grow(
                                    before.games@,
                                    self.games@,
                                    1,
                                    u32::MAX - sims_left(before),
                                );
                            }
                            return None;
                        }
                        self.pending = Pending::Leaves(leaves);
                        Some(Ok(Some((enc, rows))))
                    },
                }
            },
            Phase::SimsDone => Some(Ok(None)),
        }
    }
}

/// Searching keeps the games well-formed.
proof fn lemma_kept(before: MctsEngine, after: MctsEngine)
    requires
        engine_wf(before),
        shapes_kept(before.games@, after.games@),
    ensures
        games_wf(after.games@),
        forall|i: int|
            0 <= i < after.games@.len() && !(#[trigger] after.games@[i]).done
                ==> after.games@[i].history@.len() < MAX_PLIES,
        forall|i: int|
            0 <= i < before.games@.len() ==> same_but_tree(
                before.games@[i],
                #[trigger] after.games@[i],
            ),
{
    assert forall|i: int| 0 <= i < after.games@.len() implies game_wf(#[trigger] after.games@[i])
        && same_but_tree(before.games@[i], after.games@[i]) && (!after.games@[i].done
        ==> after.games@[i].history@.len() < MAX_PLIES) by {
        assert(keeps_shape(before.games@[i], after.games@[i]));
        assert(game_wf(before.games@[i]));
        assert(before.games@[i].done == after.games@[i].done);
    }
}

/// The `k`-th step of the trace did not come to an answer.
pub open spec fn quiet_poll<A: Arithmetic, T: Table>(
    trace: Seq<MctsEngine>,
    k: int,
    arith: A,
    table: T,
) -> bool {
    poll_step(trace[k], trace[k + 1], None, arith, table)
}

/// Polling leads from `before`, by steps that do not come to an answer, to a step that does.
pub open spec fn polls<A: Arithmetic, T: Table>(
    before: MctsEngine,
    after: MctsEngine,
    out: Polled,
    arith: A,
    table: T,
) -> bool {
    exists|trace: Seq<MctsEngine>|
        {
            &&& trace.len() > 0
            &&& trace[0] == before
            &&& forall|k: int|
                0 <= k < trace.len() - 1 ==> #[trigger] quiet_poll(trace, k, arith, table)
            &&& #[trigger] poll_step(trace.last(), after, Some(out), arith, table)
        }
}

impl MctsEngine {
    /// Goes on with the search until a batch needs evaluation. Gives the batch with its
    /// number of rows, or nothing when the search is done and the moves can be played.
    pub fn pending_positions<A: Arithmetic, T: Table>(&mut self, arith: &A, table: &T) -> (out: Polled)
        requires
            engine_wf(*old(self)),
            has_room(*old(self)),
            softmax_fits(*arith),
            table_wf(*table),
        ensures
            polls(*old(self), *final(self), out, *arith, *table),
            engine_wf(*final(self)),
            has_room(*final(self)),
            same_table(*old(self), *final(self)),
            polled_wf(*final(self), out),
            !(out matches Ok(Some(_))) ==> final(self).pending == old(self).pending,
            stages_left(*final(self)) <= stages_left(*old(self)),
    {
        let ghost mut trace: Seq<MctsEngine> = seq![*self];
        loop
            invariant
                engine_wf(*self),
                has_room(*self),
                self.pending == old(self).pending,
                softmax_fits(*arith),
                table_wf(*table),
                same_table(*old(self), *self),
                stages_left(*self) <= stages_left(*old(self)),
                trace.len() > 0,
                trace[0] == *old(self),
                trace.last() == *self,
                forall|k: int|
                    0 <= k < trace.len() - 1 ==> #[trigger] quiet_poll(trace, k, *arith, *table),
            decreases stages_left(*self),
        {
            let ghost before = *self;
            let step = self.step_search(arith, table);
            proof {
                lemma_same_table(*old(self), before, *self);
            }
            match step {
                Some(out) => {
                    assert(poll_step(trace.last(), *self, Some(out), *arith, *table));
                    return out;
                },
                None => {
                    proof {
                        let earlier = trace;
                        trace = trace.push(*self);
                        assert forall|k: int|
                            0 <= k < trace.len() - 1 implies #[trigger] quiet_poll(
                            trace,
                            k,
                            *arith,
                            *table,
                        ) by {
                            if k < earlier.len() - 1 {
                                assert(quiet_poll(earlier, k, *arith, *table));
                                assert(trace[k] == earlier[k] && trace[k + 1] == earlier[k + 1]);
                            }
                        }
                    }
                },
            }
        }
    }
}

proof fn lemma_same_table(a: MctsEngine, b: MctsEngine, c: MctsEngine)
    requires
        same_table(a, b),
        same_table(b, c),
    ensures
        same_table(a, c),
{
    assert forall|i: int| 0 <= i < a.games@.len() implies same_but_tree(
        a.games@[i],
        #[trigger] c.games@[i],
    ) by {
        assert(same_but_tree(a.games@[i], b.games@[i]));
    }
}

// --- answers -----------------------------------------------------------------

/// The answer has a row for each position of the pending batch, and the trees have room for
/// the moves.
pub open spec fn answer_fits(e: MctsEngine, logits: Seq<Real32>, values: Seq<Real>) -> bool {
    match e.pending {
        Pending::Nothing => true,
        Pending::Roots(need) => {
            &&& need@.len() * POLICY_SIZE <= logits.len()
            &&& roots_fit(e.games@, need@)
        },
        Pending::Leaves(leaves) => {
            &&& rows_in(leaves@) * POLICY_SIZE <= logits.len()
            &&& rows_in(leaves@) <= values.len()
            &&& leaves_fit(e.games@, leaves@)
            &&& all_visits_within(e.games@, u32::MAX - 1)
        },
    }
}

/// The pending batch belongs to the phase the search is in.
pub open spec fn in_step(e: MctsEngine) -> bool {
    match e.pending {
        Pending::Nothing => true,
        Pending::Roots(_) => e.phase == Phase::RootExpand,
        Pending::Leaves(_) => e.phase is Sim,
    }
}

/// An answer leads from `before` to `after`. For the roots, their moves are generated, noise
/// is mixed in, and simulations begin. For leaves, each is settled in its game, and one more
/// simulation is done.
pub open spec fn applies<A: Arithmetic, T: Table>(
    before: MctsEngine,
    after: MctsEngine,
    logits: Seq<Real32>,
    values: Seq<Real>,
    arith: A,
    table: T,
) -> bool {
    match before.pending {
        Pending::Nothing => after == before,
        Pending::Roots(need) => {
            &&& after == (MctsEngine {
                games: after.games,
                pending: Pending::Nothing,
                phase: Phase::Sim(0),
                ..before
            })
            &&& exists|mid: Seq<Game>| #[trigger]
                expands_roots(before.games@, mid, need@, logits, arith) && noise_stage(
                    mid,
                    after.games@,
                    before.seats@,
                    before.add_root_noise,
                    arith,
                    table,
                )
        },
        Pending::Leaves(leaves) => {
            &&& after == (MctsEngine {
                games: after.games,
                pending: Pending::Nothing,
                phase: match before.phase {
                    Phase::Sim(s) => Phase::Sim((s + 1) as usize),
                    other => other,
                },
                ..before
            })
            &&& scatters(before.games@, after.games@, leaves@, logits, values, arith)
        },
    }
}

/// The trees have room for the moves of the pending batch.
pub open spec fn pending_fits(e: MctsEngine) -> bool {
    match e.pending {
        Pending::Nothing => true,
        Pending::Roots(need) => roots_fit(e.games@, need@),
        Pending::Leaves(leaves) => leaves_fit(e.games@, leaves@),
    }
}

/// Game `i` has a position in the pending batch, and its tree has no room for the moves of it.
pub open spec fn is_full(e: MctsEngine, i: usize) -> bool {
    &&& i < e.games@.len()
    &&& match e.pending {
        Pending::Nothing => false,
        Pending::Roots(need) => need@.contains(i) && !root_fits(e.games@, i as int),
        Pending::Leaves(leaves) => exists|k: int|
            0 <= k < leaves@.len() && leaves@[k].game == i && !#[trigger] leaf_fits(
                e.games@,
                leaves@[k],
            ),
    }
}

/// The numbers ascend and stay below `n`.
pub open spec fn ascend_below(need: Seq<usize>, n: int) -> bool {
    &&& forall|k: int| 0 <= k < need.len() ==> #[trigger] need[k] < n
    &&& forall|k: int, l: int|
        0 <= k < l < need.len() ==> #[trigger] need[k] < #[trigger] need[l]
}

/// Tells whether the numbers ascend and stay below `n`.
fn check_roots(need: &Vec<usize>, n: usize) -> (ok: bool)
    ensures
        ok == ascend_below(need@, n as int),
{
    let mut k: usize = 0;
    while k < need.len()
        invariant
            0 <= k <= need@.len(),
            forall|j: int| 0 <= j < k ==> #[trigger] need@[j] < n,
            forall|j: int, l: int| 0 <= j < l < k ==> #[trigger] need@[j] < #[trigger] need@[l],
        decreases need@.len() - k,
    {
        if need[k] >= n {
            assert(!(need@[k as int] < n));
            return false;
        }
        if k > 0 && need[k - 1] >= need[k] {
            assert(!(need@[k - 1] < need@[k as int]));
            return false;
        }
        proof {
            assert forall|j: int, l: int| 0 <= j < l < k + 1 implies #[trigger] need@[j]
                < #[trigger] need@[l] by {
                if l == k && j < k - 1 {
                    assert(need@[j] < need@[k - 1]);
                }
            }
        }
        k += 1;
    }
    true
}

impl MctsEngine {
    /// Tells whether the pending batch belongs to the games as they are.
    pub fn check_pending(&self) -> (ok: bool)
        requires
            engine_wf(*self),
        ensures
            ok == pending_wf(*self),
    {
        match &self.pending {
            Pending::Nothing => true,
            Pending::Roots(need) => check_roots(need, self.games.len()),
            Pending::Leaves(leaves) => {
                if let Phase::Sim(s) = self.phase {
                    if s >= self.sims {
                        return false;
                    }
                }
                check_leaves(&self.games, leaves)
            },
        }
    }

    /// Finds a game whose tree has no room for the moves of the pending batch.
    pub fn find_full(&self) -> (full: Option<usize>)
        requires
            engine_wf(*self),
            pending_wf(*self),
        ensures
            match full {
                None => pending_fits(*self),
                Some(i) => is_full(*self, i),
            },
    {
        match &self.pending {
            Pending::Nothing => None,
            Pending::Roots(need) => {
                let full = find_full_root(&self.games, need);
                proof {
                    if let Some(i) = full {
                        let k = choose|k: int| 0 <= k < need@.len() && need@[k] == i;
                        assert(need@[k] < self.games@.len());
                        assert(need@.contains(i));
                    }
                }
                full
            },
            Pending::Leaves(leaves) => {
                proof {
                    assert forall|k: int| 0 <= k < leaves@.len() implies (
                    #[trigger] leaves@[k]).game < self.games@.len() by {
                        assert(leaf_wf(self.games@, leaves@[k], rows_in(leaves@) as int));
                    }
                }
                find_full(&self.games, leaves)
            },
        }
    }

    /// Applies the answer for the pending batch.
    pub fn apply_evals<A: Arithmetic, T: Table>(
        &mut self,
        logits: &Vec<Real32>,
        values: &Vec<Real>,
        arith: &A,
        table: &T,
    )
        requires
            engine_wf(*old(self)),
            pending_wf(*old(self)),
            softmax_fits(*arith),
            answer_fits(*old(self), logits@, values@),
        ensures
            applies(*old(self), *final(self), logits@, values@, *arith, *table),
            engine_wf(*final(self)),
            same_table(*old(self), *final(self)),
            final(self).pending == Pending::Nothing,
            has_room(*old(self)) && in_step(*old(self)) ==> has_room(*final(self)),
            in_step(*old(self)) && old(self).pending != Pending::Nothing ==> stages_left(
                *final(self),
            ) < stages_left(*old(self)),
    {
        let ghost before = *self;
        let mut pending = Pending::Nothing;
        std::mem::swap(&mut self.pending, &mut pending);
        match pending {
            Pending::Nothing => {},
            Pending::Roots(need) => {
                expand_roots(&mut self.games, &need, logits, arith);
                let ghost mid = *self;
                proof {
                    assert(expands_roots(before.games@, mid.games@, need@, logits@, *arith));
                    assert forall|i: int| 0 <= i < mid.games@.len() implies game_wf(
                        #[trigger] mid.games@[i],
                    ) && same_but_tree(before.games@[i], mid.games@[i]) by {}
                }
                self.apply_root_noise(arith, table);
                self.phase = Phase::Sim(0);
                proof {
                    assert forall|i: int| 0 <= i < self.games@.len() implies game_wf(
                        #[trigger] self.games@[i],
                    ) && same_but_tree(before.games@[i], self.games@[i]) by {
                        assert(game_wf(mid.games@[i]));
                        assert(keeps_shape(mid.games@[i], self.games@[i]));
                    }
                    if has_room(before) && in_step(before) {
                        lemma_all_grow(before.games@, mid.games@, 0, u32::MAX - sims_left(before));
                        lemma_all_grow(mid.games@, self.games@, 0, u32::MAX - sims_left(before));
                        lemma_wider(
                            self.games@,
                            u32::MAX - sims_left(before),
                            u32::MAX - sims_left(*self),
                        );
                    }
                }
            },
            Pending::Leaves(leaves) => {
                scatter_leaves(&mut self.games, &leaves, logits, values, arith);
                proof {
                    lemma_kept(before, *self);
                    if has_room(before) {
                        lemma_all_grow(before.games@, self.games@, 1, u32::MAX - sims_left(before));
                    }
                }
                if let Phase::Sim(s) = self.phase {
                    self.phase = Phase::Sim(s + 1);
                }
            },
        }
    }
}

// --- moves -------------------------------------------------------------------

/// Every game that is being played has a move to choose from.
pub open spec fn may_step(e: MctsEngine) -> bool {
    forall|i: int|
        0 <= i < e.games@.len() && !(#[trigger] e.games@[i]).done
            ==> e.games@[i].arena@[0].children@.len() > 0
}

/// Game `before` plays a move. A game that is over gives its rows and keeps no record.
pub open spec fn steps_game<A: Arithmetic, T: Table>(
    before: Game,
    after: Game,
    rows: Seq<Row>,
    arith: A,
    table: T,
    seat: u64,
) -> bool {
    if before.done {
        after == before && rows.len() == 0
    } else {
        exists|mid: Game| #[trigger]
            moves_on(before, mid, arith, table, seat) && if mid.done {
                &&& rows_of(mid, rows)
                &&& after == (Game { history: after.history, ..mid })
                &&& after.history@.len() == 0
            } else {
                after == mid && rows.len() == 0
            }
    }
}

/// The rows of the first `n` games, one game after the other.
pub open spec fn joined(parts: Seq<Seq<Row>>, n: nat) -> Seq<Row>
    decreases n,
{
    if n == 0 {
        Seq::empty()
    } else {
        joined(parts, (n - 1) as nat) + parts[n - 1]
    }
}

proof fn lemma_joined(parts: Seq<Seq<Row>>, more: Seq<Row>, n: nat)
    requires
        n <= parts.len(),
    ensures
        joined(parts.push(more), n) == joined(parts, n),
    decreases n,
{
    if n > 0 {
        lemma_joined(parts, more, (n - 1) as nat);
    }
}

/// Every game plays a move, and the rows of the games that end with it join the results.
pub open spec fn steps_games<A: Arithmetic, T: Table>(
    before: MctsEngine,
    after: MctsEngine,
    parts: Seq<Seq<Row>>,
    arith: A,
    table: T,
) -> bool {
    &&& after == (MctsEngine {
        games: after.games,
        results: after.results,
        finished: after.finished,
        phase: Phase::RootExpand,
        ..before
    })
    &&& after.finished == before.finished + ended_count(
        before.games@,
        after.games@,
        before.games@.len(),
    )
    &&& after.games@.len() == before.games@.len()
    &&& parts.len() == before.games@.len()
    &&& after.results@ == before.results@ + joined(parts, parts.len())
    &&& forall|i: int|
        0 <= i < before.games@.len() ==> steps_game(
            before.games@[i],
            #[trigger] after.games@[i],
            parts[i],
            arith,
            table,
            before.seats@[i],
        )
}

/// How many of the first `n` games ended on the way from `before` to `after`.
pub open spec fn ended_count(before: Seq<Game>, after: Seq<Game>, n: nat) -> nat
    decreases n,
{
    if n == 0 {
        0
    } else {
        ended_count(before, after, (n - 1) as nat) + if !before[n - 1].done && after[n - 1].done {
            1nat
        } else {
            0
        }
    }
}

proof fn lemma_ended_count(before: Seq<Game>, after: Seq<Game>, later: Seq<Game>, n: nat)
    requires
        forall|i: int| 0 <= i < n ==> #[trigger] later[i] == after[i],
    ensures
        ended_count(before, later, n) == ended_count(before, after, n),
        ended_count(before, after, n) <= n,
    decreases n,
{
    if n > 0 {
        assert(later[n - 1] == after[n - 1]);
        lemma_ended_count(before, after, later, (n - 1) as nat);
    }
}

/// The rows of one game that plays a move.
fn step_game<A: Arithmetic, T: Table>(g: &mut Game, arith: &A, table: &T, seat: u64) -> (rows: Vec<
    Row,
>)
    requires
        game_wf(*old(g)),
        !old(g).done ==> old(g).history@.len() < MAX_PLIES,
        !old(g).done ==> old(g).arena@[0].children@.len() > 0,
        table_wf(*table),
    ensures
        steps_game(*old(g), *final(g), rows@, *arith, *table, seat),
        game_wf(*final(g)),
        !final(g).done ==> final(g).history@.len() < MAX_PLIES,
        visits_grow(*old(g), *final(g), 0),
        !old(g).done && final(g).done <==> rows@.len() > 0,
        rows_wf(rows@),
{
    if g.done {
        return Vec::new();
    }
    let ghost before = *g;
    step_move(g, arith, table, seat);
    let ghost mid = *g;
    assert(moves_on(before, mid, *arith, *table, seat));
    if g.done {
        let rows = finalize_rows(g);
        assert(rows_of(mid, rows@));
        rows
    } else {
        Vec::new()
    }
}

impl MctsEngine {
    /// Tells whether every game that is being played has a move to choose from.
    pub fn can_step(&self) -> (ok: bool)
        requires
            engine_wf(*self),
        ensures
            ok == may_step(*self),
    {
        let mut i: usize = 0;
        while i < self.games.len()
            invariant
                0 <= i <= self.games@.len(),
                engine_wf(*self),
                forall|k: int|
                    0 <= k < i && !(#[trigger] self.games@[k]).done
                        ==> self.games@[k].arena@[0].children@.len() > 0,
            decreases self.games@.len() - i,
        {
            assert(game_wf(self.games@[i as int]));
            if !self.games[i].done && self.games[i].arena[0].children.len() == 0 {
                return false;
            }
            i += 1;
        }
        true
    }

    /// Tells whether the visit counts have room for the rest of the search.
    pub fn check_room(&self) -> (ok: bool)
        requires
            engine_wf(*self),
        ensures
            ok == has_room(*self),
    {
        let left: usize = match self.phase {
            Phase::RootExpand => self.sims,
            Phase::Sim(s) => self.sims - s,
            Phase::SimsDone => 0,
        };
        let most: u32 = u32::MAX - left as u32;
        let mut i: usize = 0;
        while i < self.games.len()
            invariant
                0 <= i <= self.games@.len(),
                engine_wf(*self),
                most == u32::MAX - sims_left(*self),
                forall|k: int|
                    0 <= k < i ==> visits_within(
                        #[trigger] nodes(self.games@[k].arena@),
                        most as int,
                    ),
            decreases self.games@.len() - i,
        {
            let arena = &self.games[i].arena;
            let mut n: usize = 0;
            while n < arena.len()
                invariant
                    0 <= n <= arena@.len(),
                    i < self.games@.len(),
                    *arena == self.games@[i as int].arena,
                    most == u32::MAX - sims_left(*self),
                    forall|k: int| 0 <= k < n ==> (#[trigger] arena@[k]).visit_count <= most,
                decreases arena@.len() - n,
            {
                if arena[n].visit_count > most {
                    assert(nodes(self.games@[i as int].arena@)[n as int].visit_count > most);
                    return false;
                }
                n += 1;
            }
            assert(visits_within(nodes(self.games@[i as int].arena@), most as int));
            i += 1;
        }
        true
    }

    /// Plays one move in every game that is being played, and collects the training rows of
    /// the games that are over. The search for the next moves can then begin.
    pub fn step_moves<A: Arithmetic, T: Table>(&mut self, arith: &A, table: &T)
        requires
            engine_wf(*old(self)),
            may_step(*old(self)),
            table_wf(*table),
        ensures
            exists|parts: Seq<Seq<Row>>| #[trigger]
                steps_games(*old(self), *final(self), parts, *arith, *table),
            engine_wf(*final(self)),
            all_grow(old(self).games@, final(self).games@, 0),
    {
        let ghost start = *self;
        let ghost mut parts: Seq<Seq<Row>> = Seq::empty();
        assert(self.results@ =~= start.results@ + joined(parts, 0));
        let mut i: usize = 0;
        while i < self.games.len()
            invariant
                start == *old(self),
                engine_wf(start),
                may_step(start),
                table_wf(*table),
                0 <= i <= self.games@.len(),
                self.games@.len() == start.games@.len(),
                *self == (MctsEngine {
                    games: self.games,
                    results: self.results,
                    finished: self.finished,
                    ..start
                }),
                self.finished == start.finished + ended_count(start.games@, self.games@, i as nat),
                self.finished <= self.results@.len(),
                self.results@.len() > 0 ==> self.finished > 0,
                rows_wf(self.results@),
                parts.len() == i,
                self.results@ == start.results@ + joined(parts, i as nat),
                forall|k: int|
                    0 <= k < i ==> steps_game(
                        start.games@[k],
                        #[trigger] self.games@[k],
                        parts[k],
                        *arith,
                        *table,
                        start.seats@[k],
                    ),
                forall|k: int|
                    0 <= k < self.games@.len() ==> game_wf(#[trigger] self.games@[k]) && (
                    !self.games@[k].done ==> self.games@[k].history@.len() < MAX_PLIES),
                forall|k: int| i <= k < start.games@.len() ==> #[trigger] self.games@[k]
                    == start.games@[k],
                all_grow(start.games@, self.games@, 0),
            decreases self.games@.len() - i,
        {
            let ghost before = self.games@;
            assert(before[i as int] == start.games@[i as int]);
            assert(game_wf(start.games@[i as int]));
            let seat: u64 = self.seats[i];
            let mut rows = step_game(&mut self.games[i], arith, table, seat);
            let ghost part = rows@;
            let ghost collected = self.results@;
            let ended = rows.len() > 0;
            self.results.append(&mut rows);
            if ended {
                assert(self.results@.len() == self.results.len());
                self.finished += 1;
            }
            proof {
                let earlier = parts;
                parts = parts.push(part);
                lemma_joined(earlier, part, i as nat);
                lemma_ended_count(start.games@, before, self.games@, i as nat);
                assert(self.results@ =~= collected + part);
                assert forall|k: int| 0 <= k < self.results@.len() implies row_wf(
                    #[trigger] self.results@[k],
                ) by {
                    if k < collected.len() {
                        assert(self.results@[k] == collected[k]);
                    } else {
                        assert(self.results@[k] == part[k - collected.len()]);
                    }
                }
                assert(self.results@ =~= start.results@ + joined(parts, (i + 1) as nat));
                assert forall|k: int| 0 <= k < i + 1 implies steps_game(
                    start.games@[k],
                    #[trigger] self.games@[k],
                    parts[k],
                    *arith,
                    *table,
                    start.seats@[k],
                ) by {
                    if k < i {
                        assert(self.games@[k] == before[k]);
                        assert(parts[k] == earlier[k]);
                    }
                }
                assert forall|k: int| 0 <= k < self.games@.len() implies game_wf(
                    #[trigger] self.games@[k],
                ) && (!self.games@[k].done ==> self.games@[k].history@.len() < MAX_PLIES) by {
                    if k != i {
                        assert(self.games@[k] == before[k]);
                    }
                }
                assert forall|k: int| i + 1 <= k < start.games@.len() implies #[trigger] self.games@[k]
                    == start.games@[k] by {
                    assert(self.games@[k] == before[k]);
                }
                assert forall|k: int| 0 <= k < start.games@.len() implies visits_grow(
                    start.games@[k],
                    #[trigger] self.games@[k],
                    0,
                ) by {
                    assert(visits_grow(start.games@[k], before[k], 0));
                }
            }
            i += 1;
        }
        self.phase = Phase::RootExpand;
        assert(steps_games(start, *self, parts, *arith, *table));
    }

    /// Tells whether every game is over.
    pub fn all_done(&self) -> (done: bool)
        ensures
            done <==> forall|i: int| 0 <= i < self.games@.len() ==> (#[trigger] self.games@[i]).done,
    {
        let mut i: usize = 0;
        while i < self.games.len()
            invariant
                0 <= i <= self.games@.len(),
                forall|k: int| 0 <= k < i ==> (#[trigger] self.games@[k]).done,
            decreases self.games@.len() - i,
        {
            if !self.games[i].done {
                return false;
            }
            i += 1;
        }
        true
    }

    /// Takes the training rows collected so far. Games are counted anew from there.
    pub fn take_results(&mut self) -> (rows: Vec<Row>)
        ensures
            rows@ == old(self).results@,
            *final(self) == (MctsEngine {
                results: final(self).results,
                finished: 0,
                ..*old(self)
            }),
            final(self).results@.len() == 0,
    {
        self.finished = 0;
        let mut rows: Vec<Row> = Vec::new();
        std::mem::swap(&mut self.results, &mut rows);
        rows
    }

    /// Replaces every game that is over by a new one.
    pub fn refill_done<T: Table>(&mut self, table: &T)
        requires
            engine_wf(*old(self)),
            table_wf(*table),
        ensures
            *final(self) == (MctsEngine { games: final(self).games, ..*old(self) }),
            final(self).games@.len() == old(self).games@.len(),
            forall|i: int|
                0 <= i < old(self).games@.len() ==> if old(self).games@[i].done {
                    is_new_game(#[trigger] final(self).games@[i], final(self).games@[i].position)
                        && call_ensures(
                        T::start,
                        (table, old(self).seats@[i], None),
                        final(self).games@[i].position,
                    )
                } else {
                    final(self).games@[i] == old(self).games@[i]
                },
            engine_wf(*final(self)),
            all_grow(old(self).games@, final(self).games@, 0),
    {
        let ghost start = *self;
        let mut i: usize = 0;
        while i < self.games.len()
            invariant
                engine_wf(start),
                table_wf(*table),
                0 <= i <= self.games@.len(),
                self.games@.len() == start.games@.len(),
                *self == (MctsEngine { games: self.games, ..start }),
                forall|k: int|
                    0 <= k < i ==> if start.games@[k].done {
                        is_new_game(#[trigger] self.games@[k], self.games@[k].position)
                            && call_ensures(
                            T::start,
                            (table, start.seats@[k], None),
                            self.games@[k].position,
                        )
                    } else {
                        self.games@[k] == start.games@[k]
                    },
                forall|k: int| i <= k < start.games@.len() ==> #[trigger] self.games@[k]
                    == start.games@[k],
            decreases self.games@.len() - i,
        {
            if self.games[i].done {
                let position = table.start(self.seats[i], None);
                let fresh = Game::from_board(position);
                self.games.set(i, fresh);
            }
            i += 1;
        }
        proof {
            assert forall|k: int| 0 <= k < self.games@.len() implies game_wf(
                #[trigger] self.games@[k],
            ) && (!self.games@[k].done ==> self.games@[k].history@.len() < MAX_PLIES) by {
                assert(game_wf(start.games@[k]));
            }
            assert forall|k: int| 0 <= k < start.games@.len() implies visits_grow(
                start.games@[k],
                #[trigger] self.games@[k],
                0,
            ) by {
                if start.games@[k].done {
                    assert(is_new_game(self.games@[k], self.games@[k].position));
                }
            }
        }
    }
}

/// How many of the first `n` games are over.
pub open spec fn done_count(games: Seq<Game>, n: nat) -> nat
    decreases n,
{
    if n == 0 {
        0
    } else {
        done_count(games, (n - 1) as nat) + if games[n - 1].done {
            1nat
        } else {
            0
        }
    }
}

// --- looking at the trees ----------------------------------------------------

/// Policy index, visit count and value sum of each child of the root.
pub open spec fn child_stats(a: Seq<NodeView>) -> Seq<(i32, u32, Real)> {
    Seq::new(
        a[0].children.len(),
        |j: int|
            (
                a[child(a, 0, j)].move_index,
                a[child(a, 0, j)].visit_count,
                a[child(a, 0, j)].value_sum,
            ),
    )
}

/// Place of the first child of the root with the given policy index.
pub open spec fn is_first_child(a: Seq<NodeView>, move_index: i32, p: int) -> bool {
    &&& 0 <= p < a[0].children.len()
    &&& a[child(a, 0, p)].move_index == move_index
    &&& forall|k: int| 0 <= k < p ==> a[#[trigger] child(a, 0, k)].move_index != move_index
}

impl MctsEngine {
    /// Policy index, visit count and value sum of each child of the root of a game.
    pub fn root_child_stats(&self, gi: usize) -> (stats: Vec<(i32, u32, Real)>)
        requires
            engine_wf(*self),
            gi < self.games@.len(),
        ensures
            stats@ == child_stats(nodes(self.games@[gi as int].arena@)),
    {
        let arena = &self.games[gi].arena;
        let ghost a = nodes(arena@);
        assert(game_wf(self.games@[gi as int]));
        let root = &arena[0];
        let mut stats: Vec<(i32, u32, Real)> = Vec::new();
        let mut j: usize = 0;
        while j < root.children.len()
            invariant
                a == nodes(arena@),
                arena_wf(a),
                *root == arena@[0],
                0 <= j <= root.children@.len(),
                stats@ == child_stats(a).take(j as int),
            decreases root.children@.len() - j,
        {
            let (_, c) = root.children[j];
            assert(child(a, 0, j as int) == c);
            let n = &arena[c as usize];
            stats.push((n.move_index, n.visit_count, n.value_sum));
            assert(stats@ =~= child_stats(a).take(j + 1));
            j += 1;
        }
        assert(stats@ =~= child_stats(a));
        stats
    }

    /// The policy that the visit counts at the root of a game amount to.
    pub fn root_pi<A: Arithmetic>(&self, gi: usize, temperature: Real, arith: &A) -> (pi: Vec<
        Real32,
    >)
        requires
            engine_wf(*self),
            gi < self.games@.len(),
        ensures
            is_policy(nodes(self.games@[gi as int].arena@), 0, temperature, *arith, pi@),
            pi@.len() == POLICY_SIZE,
    {
        assert(game_wf(self.games@[gi as int]));
        visits_to_pi(&self.games[gi].arena, 0, temperature, arith)
    }

    /// A move for every game, sampled from the visit counts at its root.
    pub fn select_moves<T: Table>(&self, temperature: Real, table: &T) -> (handles: Vec<u16>)
        requires
            engine_wf(*self),
            forall|i: int|
                0 <= i < self.games@.len() ==> (
                #[trigger] self.games@[i]).arena@[0].children@.len() > 0,
        ensures
            handles@.len() == self.games@.len(),
            forall|i: int|
                0 <= i < handles@.len() ==> is_sample(
                    nodes(self.games@[i].arena@),
                    0,
                    temperature,
                    *table,
                    i as u64,
                    self.games@[i].line,
                    #[trigger] handles@[i],
                ),
    {
        let mut handles: Vec<u16> = Vec::new();
        let mut i: usize = 0;
        while i < self.games.len()
            invariant
                0 <= i <= self.games@.len(),
                engine_wf(*self),
                forall|k: int|
                    0 <= k < self.games@.len() ==> (
                    #[trigger] self.games@[k]).arena@[0].children@.len() > 0,
                handles@.len() == i,
                forall|k: int|
                    0 <= k < i ==> is_sample(
                        nodes(self.games@[k].arena@),
                        0,
                        temperature,
                        *table,
                        k as u64,
                        self.games@[k].line,
                        #[trigger] handles@[k],
                    ),
            decreases self.games@.len() - i,
        {
            assert(game_wf(self.games@[i as int]));
            let g = &self.games[i];
            let handle = sample_move(&g.arena, 0, temperature, table, self.seats[i], &g.line);
            handles.push(handle);
            i += 1;
        }
        handles
    }

    /// Makes ready for a new search.
    pub fn reset_cycle(&mut self)
        requires
            engine_wf(*old(self)),
        ensures
            *final(self) == (MctsEngine { phase: Phase::RootExpand, ..*old(self) }),
            engine_wf(*final(self)),
    {
        self.phase = Phase::RootExpand;
    }

    /// Plays the move of the first child of a game's root that has the given policy index,
    /// and keeps the tree below it. `false` when no child has that index.
    pub fn advance_by_move_index<T: Table>(&mut self, gi: usize, move_index: i32, table: &T) -> (
    found: bool)
        requires
            engine_wf(*old(self)),
            gi < old(self).games@.len(),
            table_wf(*table),
        ensures
            engine_wf(*final(self)),
            ({
                let before = old(self).games@[gi as int];
                let a = nodes(before.arena@);
                if found {
                    exists|p: int, after: Game|
                        {
                            &&& is_first_child(a, move_index, p)
                            &&& after == (Game {
                                position: after.position,
                                line: after.line,
                                arena: after.arena,
                                ..before
                            })
                            &&& after.line@ == before.line@.push(
                                (#[trigger] a[0].children[p]).0,
                            )
                            &&& call_ensures(
                                T::play,
                                (table, gi as u64, &after.line),
                                after.position,
                            )
                            &&& advances(a, nodes(after.arena@), a[0].children[p].0)
                            &&& final(self).games@ == #[trigger] old(self).games@.update(
                                gi as int,
                                after,
                            )
                            &&& *final(self) == (MctsEngine {
                                games: final(self).games,
                                ..*old(self)
                            })
                        }
                } else {
                    &&& *final(self) == *old(self)
                    &&& forall|j: int|
                        0 <= j < a[0].children.len() ==> a[#[trigger] child(a, 0, j)].move_index
                            != move_index
                }
            }),
    {
        let ghost start = *self;
        let ghost a = nodes(self.games@[gi as int].arena@);
        assert(game_wf(self.games@[gi as int]));
        let mut handle: Option<u16> = None;
        let mut j: usize = 0;
        let n: usize = self.games[gi].arena[0].children.len();
        while j < n && handle.is_none()
            invariant
                *self == start,
                gi < self.games@.len(),
                a == nodes(self.games@[gi as int].arena@),
                arena_wf(a),
                n == a[0].children.len(),
                0 <= j <= n,
                match handle {
                    None => forall|k: int|
                        0 <= k < j ==> a[#[trigger] child(a, 0, k)].move_index != move_index,
                    Some(h) => 0 < j && is_first_child(a, move_index, j - 1)
                        && a[0].children[j - 1].0 == h,
                },
            decreases n - j,
        {
            let arena = &self.games[gi].arena;
            let (h, c) = arena[0].children[j];
            assert(child(a, 0, j as int) == c);
            if arena[c as usize].move_index == move_index {
                handle = Some(h);
            }
            j += 1;
        }
        match handle {
            None => false,
            Some(h) => {
                let mut line = self.games[gi].line.clone();
                line.push(h);
                let position = table.play(self.seats[gi], &line);
                let ghost before = self.games@[gi as int];
                play_on(&mut self.games[gi], h, line, position);
                proof {
                    let after = self.games@[gi as int];
                    assert(self.games@ =~= start.games@.update(gi as int, after));
                    assert(a[0].children[j - 1].0 == h);
                    assert forall|k: int| 0 <= k < self.games@.len() implies game_wf(
                        #[trigger] self.games@[k],
                    ) && (!self.games@[k].done ==> self.games@[k].history@.len() < MAX_PLIES) by {
                        assert(game_wf(start.games@[k]));
                    }
                }
                true
            },
        }
    }
}

/// Puts a game in the position after a move, and keeps the tree below it.
fn play_on(g: &mut Game, handle: u16, line: Vec<u16>, position: Position)
    requires
        game_wf(*old(g)),
        position_wf(position),
    ensures
        game_wf(*final(g)),
        *final(g) == (Game { position, line, arena: final(g).arena, ..*old(g) }),
        advances(nodes(old(g).arena@), nodes(final(g).arena@), handle),
{
    g.position = position;
    g.line = line;
    advance_subtree(g, handle);
}

// --- a whole round -----------------------------------------------------------

/// One batch is asked for, evaluated, and its answer applied.
pub open spec fn feeds<A: Arithmetic, T: Table, E: Evaluator>(
    before: MctsEngine,
    after: MctsEngine,
    arith: A,
    table: T,
    net: E,
) -> bool {
    exists|mid: MctsEngine, enc: Vec<Real32>, rows: usize, out: (Vec<Real32>, Vec<Real>)|
        {
            &&& #[trigger] polls(before, mid, Ok(Some((enc, rows))), arith, table)
            &&& #[trigger] call_ensures(E::eval, (&net, &enc, rows), out)
            &&& applies(mid, after, out.0@, out.1@, arith, table)
        }
}

/// The `k`-th batch of the chain.
pub open spec fn feeds_at<A: Arithmetic, T: Table, E: Evaluator>(
    chain: Seq<MctsEngine>,
    k: int,
    arith: A,
    table: T,
    net: E,
) -> bool {
    feeds(chain[k], chain[k + 1], arith, table, net)
}

/// Batches lead from `before` to the last state of the chain, and one more poll gives `out`
/// and leads to `after`.
pub open spec fn feeds_until<A: Arithmetic, T: Table, E: Evaluator>(
    chain: Seq<MctsEngine>,
    before: MctsEngine,
    after: MctsEngine,
    out: Polled,
    arith: A,
    table: T,
    net: E,
) -> bool {
    &&& chain.len() > 0
    &&& chain[0] == before
    &&& forall|k: int|
        0 <= k < chain.len() - 1 ==> #[trigger] feeds_at(chain, k, arith, table, net)
    &&& polls(chain.last(), after, out, arith, table)
}

/// What the engine has after a round.
pub struct Round {
    /// The training rows, with the number of games that they belong to, unless there are none.
    pub rows: Option<(Vec<Row>, usize)>,
    /// Whether there is nothing left to play.
    pub over: bool,
}

/// A round ends: the rows are handed out with the number of games that ended since the last
/// time, and counting starts anew. Games that are over are replaced, or, when there is no
/// refill, the round tells whether all games are over.
pub open spec fn ends_round<T: Table>(
    before: MctsEngine,
    after: MctsEngine,
    round: Round,
    refill: bool,
    table: T,
) -> bool {
    &&& match round.rows {
        Some((rows, n)) => {
            &&& before.results@.len() > 0
            &&& rows@ == before.results@
            &&& rows_wf(rows@)
            &&& n == before.finished
        },
        None => before.results@.len() == 0 && before.finished == 0,
    }
    &&& after == (MctsEngine {
        games: after.games,
        results: after.results,
        finished: 0,
        ..before
    })
    &&& after.results@.len() == 0
    &&& after.games@.len() == before.games@.len()
    &&& if refill {
        &&& !round.over
        &&& forall|i: int|
            0 <= i < before.games@.len() ==> if before.games@[i].done {
                is_new_game(#[trigger] after.games@[i], after.games@[i].position)
                    && call_ensures(
                    T::start,
                    (&table, before.seats@[i], None),
                    after.games@[i].position,
                )
            } else {
                after.games@[i] == before.games@[i]
            }
    } else {
        &&& after.games == before.games
        &&& round.over <==> forall|i: int|
            0 <= i < before.games@.len() ==> (#[trigger] before.games@[i]).done
    }
}

/// How many games a round reports.
pub open spec fn reported(round: Round) -> nat {
    match round.rows {
        Some((_, n)) => n as nat,
        None => 0,
    }
}

/// A whole round: the search leads to `searched`, the moves to `moved`, and the round ends.
pub open spec fn plays_round<A: Arithmetic, T: Table>(
    before: MctsEngine,
    searched: MctsEngine,
    moved: MctsEngine,
    after: MctsEngine,
    round: Round,
    refill: bool,
    arith: A,
    table: T,
) -> bool {
    &&& same_table(before, searched)
    &&& exists|parts: Seq<Seq<Row>>| #[trigger] steps_games(searched, moved, parts, arith, table)
    &&& ends_round(moved, after, round, refill, table)
}

/// A round reports the games that ended in it, no others, and leaves none to be reported.
pub proof fn rounds_report_the_games_that_ended<A: Arithmetic, T: Table>(
    before: MctsEngine,
    searched: MctsEngine,
    moved: MctsEngine,
    after: MctsEngine,
    round: Round,
    refill: bool,
    arith: A,
    table: T,
)
    requires
        plays_round(before, searched, moved, after, round, refill, arith, table),
        before.finished == 0,
    ensures
        reported(round) == ended_count(before.games@, moved.games@, before.games@.len()),
        after.finished == 0,
{
    lemma_same_endings(before.games@, searched.games@, moved.games@, before.games@.len());
}

proof fn lemma_same_endings(before: Seq<Game>, searched: Seq<Game>, after: Seq<Game>, n: nat)
    requires
        n <= before.len(),
        forall|i: int|
            0 <= i < before.len() ==> same_but_tree(before[i], #[trigger] searched[i]),
    ensures
        ended_count(before, after, n) == ended_count(searched, after, n),
    decreases n,
{
    if n > 0 {
        assert(same_but_tree(before[n - 1], searched[n - 1]));
        lemma_same_endings(before, searched, after, (n - 1) as nat);
    }
}

/// The `k`-th round of a run.
pub open spec fn round_at<A: Arithmetic, T: Table>(
    states: Seq<MctsEngine>,
    rounds: Seq<Round>,
    k: int,
    refill: bool,
    arith: A,
    table: T,
) -> bool {
    exists|searched: MctsEngine, moved: MctsEngine| #[trigger]
        plays_round(states[k], searched, moved, states[k + 1], rounds[k], refill, arith, table)
}

/// How many games the first `n` rounds report together.
pub open spec fn reported_by(rounds: Seq<Round>, n: nat) -> nat
    decreases n,
{
    if n == 0 {
        0
    } else {
        reported_by(rounds, (n - 1) as nat) + reported(rounds[n - 1])
    }
}

/// Without refill, the numbers that the rounds of a run report add up to the number of games
/// that ended in the run: to all games, when none was over at its start and all are at its end.
pub proof fn reports_add_up_to_the_games<A: Arithmetic, T: Table>(
    states: Seq<MctsEngine>,
    rounds: Seq<Round>,
    n: nat,
    arith: A,
    table: T,
)
    requires
        n <= rounds.len(),
        states.len() == rounds.len() + 1,
        states[0].finished == 0,
        forall|k: int|
            0 <= k < rounds.len() ==> #[trigger] round_at(states, rounds, k, false, arith, table),
    ensures
        states[n as int].finished == 0,
        states[n as int].games@.len() == states[0].games@.len(),
        reported_by(rounds, n) + done_count(states[0].games@, states[0].games@.len())
            == done_count(states[n as int].games@, states[0].games@.len()),
        (forall|i: int| 0 <= i < states[0].games@.len() ==> !(#[trigger] states[0].games@[i]).done)
            && (forall|i: int|
            0 <= i < states[0].games@.len() ==> (#[trigger] states[n as int].games@[i]).done)
            ==> reported_by(rounds, n) == states[0].games@.len(),
    decreases n,
{
    let total = states[0].games@.len();
    if n > 0 {
        reports_add_up_to_the_games(states, rounds, (n - 1) as nat, arith, table);
        let k = n - 1;
        let before = states[k];
        let after = states[k + 1];
        assert(round_at(states, rounds, k, false, arith, table));
        let (searched, moved) = choose|searched: MctsEngine, moved: MctsEngine| #[trigger]
            plays_round(before, searched, moved, after, rounds[k], false, arith, table);
        rounds_report_the_games_that_ended(
            before,
            searched,
            moved,
            after,
            rounds[k],
            false,
            arith,
            table,
        );
        let parts = choose|parts: Seq<Seq<Row>>| #[trigger]
            steps_games(searched, moved, parts, arith, table);
        assert forall|i: int| 0 <= i < total && before.games@[i].done implies (
        #[trigger] moved.games@[i]).done by {
            assert(same_but_tree(before.games@[i], searched.games@[i]));
            assert(steps_game(
                searched.games@[i],
                moved.games@[i],
                parts[i],
                arith,
                table,
                searched.seats@[i],
            ));
        }
        lemma_endings_and_the_done(before.games@, moved.games@, total);
    }
    lemma_none_or_all_done(states[0].games@, total);
    lemma_none_or_all_done(states[n as int].games@, total);
}

proof fn lemma_endings_and_the_done(before: Seq<Game>, after: Seq<Game>, n: nat)
    requires
        forall|i: int| 0 <= i < n && before[i].done ==> (#[trigger] after[i]).done,
    ensures
        done_count(after, n) == done_count(before, n) + ended_count(before, after, n),
    decreases n,
{
    if n > 0 {
        assert(before[n - 1].done ==> after[n - 1].done);
        lemma_endings_and_the_done(before, after, (n - 1) as nat);
    }
}

proof fn lemma_none_or_all_done(games: Seq<Game>, n: nat)
    ensures
        (forall|i: int| 0 <= i < n ==> !(#[trigger] games[i]).done) ==> done_count(games, n) == 0,
        (forall|i: int| 0 <= i < n ==> (#[trigger] games[i]).done) ==> done_count(games, n) == n,
    decreases n,
{
    if n > 0 {
        lemma_none_or_all_done(games, (n - 1) as nat);
    }
}

impl MctsEngine {
    /// Runs the search for the next moves to its end, one batch after the other.
    pub fn run_search<A: Arithmetic, T: Table, E: Evaluator>(
        &mut self,
        arith: &A,
        table: &T,
        net: &E,
    ) -> (done: Result<(), Halt>)
        requires
            engine_wf(*old(self)),
            has_room(*old(self)),
            softmax_fits(*arith),
            table_wf(*table),
            answers_fit(*net),
        ensures
            match done {
                Ok(()) => {
                    &&& exists|chain: Seq<MctsEngine>| #[trigger]
                        feeds_until(
                            chain,
                            *old(self),
                            *final(self),
                            Ok(None),
                            *arith,
                            *table,
                            *net,
                        )
                    &&& final(self).pending == Pending::Nothing || final(self).pending == old(
                        self,
                    ).pending
                    &&& final(self).phase == Phase::SimsDone
                },
                Err(Halt::Stuck(i)) => exists|chain: Seq<MctsEngine>| #[trigger]
                    feeds_until(
                        chain,
                        *old(self),
                        *final(self),
                        Err(Halt::Stuck(i)),
                        *arith,
                        *table,
                        *net,
                    ),
                Err(Halt::Full(i)) => {
                    &&& exists|chain: Seq<MctsEngine>, enc: Vec<Real32>, rows: usize| #[trigger]
                        feeds_until(
                            chain,
                            *old(self),
                            *final(self),
                            Ok(Some((enc, rows))),
                            *arith,
                            *table,
                            *net,
                        )
                    &&& is_full(*final(self), i)
                },
            },
            engine_wf(*final(self)),
            same_table(*old(self), *final(self)),
    {
        let ghost mut chain: Seq<MctsEngine> = seq![*self];
        loop
            invariant
                engine_wf(*self),
                has_room(*self),
                self.pending == Pending::Nothing || self.pending == old(self).pending,
                softmax_fits(*arith),
                table_wf(*table),
                answers_fit(*net),
                same_table(*old(self), *self),
                chain.len() > 0,
                chain[0] == *old(self),
                chain.last() == *self,
                forall|k: int|
                    0 <= k < chain.len() - 1 ==> #[trigger] feeds_at(
                        chain,
                        k,
                        *arith,
                        *table,
                        *net,
                    ),
            decreases stages_left(*self),
        {
            let ghost before = *self;
            let polled = self.pending_positions(arith, table);
            let ghost mid = *self;
            proof {
                lemma_same_table(*old(self), before, mid);
            }
            match polled {
                Err(halt) => {
                    assert(feeds_until(
                        chain,
                        *old(self),
                        *self,
                        Err(halt),
                        *arith,
                        *table,
                        *net,
                    ));
                    proof {
                        lemma_polls_never_full(before, mid, halt, *arith, *table);
                    }
                    return Err(halt);
                },
                Ok(None) => {
                    assert(feeds_until(
                        chain,
                        *old(self),
                        *self,
                        Ok(None),
                        *arith,
                        *table,
                        *net,
                    ));
                    return Ok(());
                },
                Ok(Some((enc, rows))) => {
                    if let Some(i) = self.find_full() {
                        assert(feeds_until(
                            chain,
                            *old(self),
                            *self,
                            Ok(Some((enc, rows))),
                            *arith,
                            *table,
                            *net,
                        ));
                        return Err(Halt::Full(i));
                    }
                    let out = net.eval(&enc, rows);
                    proof {
                        if let Pending::Leaves(leaves) = mid.pending {
                            lemma_wider(mid.games@, u32::MAX - sims_left(mid), u32::MAX - 1);
                        }
                        assert(call_ensures(E::eval, (net, &enc, rows), out));
                    }
                    self.apply_evals(&out.0, &out.1, arith, table);
                    proof {
                        lemma_same_table(*old(self), mid, *self);
                        assert(feeds(before, *self, *arith, *table, *net));
                        let earlier = chain;
                        chain = chain.push(*self);
                        assert forall|k: int|
                            0 <= k < chain.len() - 1 implies #[trigger] feeds_at(
                            chain,
                            k,
                            *arith,
                            *table,
                            *net,
                        ) by {
                            if k < earlier.len() - 1 {
                                assert(feeds_at(earlier, k, *arith, *table, *net));
                                assert(chain[k] == earlier[k] && chain[k + 1] == earlier[k + 1]);
                            }
                        }
                    }
                },
            }
        }
    }

    /// Ends a round after the moves were played: hands out the training rows that there are,
    /// with the number of games that ended, and replaces the games that are over, or tells
    /// whether all are over.
    pub fn end_round<T: Table>(&mut self, refill: bool, table: &T) -> (round: Round)
        requires
            engine_wf(*old(self)),
            table_wf(*table),
        ensures
            ends_round(*old(self), *final(self), round, refill, *table),
            engine_wf(*final(self)),
    {
        let rows: Option<(Vec<Row>, usize)> = if self.results.len() > 0 {
            let n: usize = self.finished;
            let rows = self.take_results();
            Some((rows, n))
        } else {
            None
        };
        if refill {
            self.refill_done(table);
            return Round { rows, over: false };
        }
        let over = self.all_done();
        Round { rows, over }
    }
}

/// A poll never finds a tree without room: that shows when the answer is to be applied.
proof fn lemma_polls_never_full<A: Arithmetic, T: Table>(
    before: MctsEngine,
    after: MctsEngine,
    halt: Halt,
    arith: A,
    table: T,
)
    requires
        polls(before, after, Err(halt), arith, table),
    ensures
        halt is Stuck,
{
    let trace = choose|trace: Seq<MctsEngine>|
        {
            &&& trace.len() > 0
            &&& trace[0] == before
            &&& forall|k: int|
                0 <= k < trace.len() - 1 ==> #[trigger] quiet_poll(trace, k, arith, table)
            &&& #[trigger] poll_step(trace.last(), after, Some(Err(halt)), arith, table)
        };
    assert(poll_step(trace.last(), after, Some(Err(halt)), arith, table));
}

/// What a turn of moves does to one game: a game that is over stays as it is; any other game plays
/// a move at its own seat. A game that the move ends gives a row for each of its moves and keeps
/// no record; a game that goes on gives none and keeps its record.
pub proof fn ended_games_give_their_rows<A: Arithmetic, T: Table>(
    before: MctsEngine,
    after: MctsEngine,
    parts: Seq<Seq<Row>>,
    i: int,
    arith: A,
    table: T,
) -> (moved: Game)
    requires
        engine_wf(before),
        steps_games(before, after, parts, arith, table),
        0 <= i < before.games@.len(),
    ensures
        before.games@[i].done ==> after.games@[i] == before.games@[i] && parts[i].len() == 0,
        !before.games@[i].done ==> {
            &&& moves_on(before.games@[i], moved, arith, table, i as u64)
            &&& after.games@[i].done == moved.done
            &&& after.games@[i].line == moved.line
            &&& moved.done ==> rows_of(moved, parts[i]) && parts[i].len()
                == before.games@[i].history@.len() + 1 && after.games@[i].history@.len() == 0
            &&& !moved.done ==> after.games@[i] == moved && parts[i].len() == 0
        },
        after.phase == Phase::RootExpand,
{
    let g = before.games@[i];
    let h = after.games@[i];
    assert(before.seats@[i] == i as u64);
    assert(steps_game(g, h, parts[i], arith, table, before.seats@[i]));
    let seat = before.seats@[i];
    let rows = parts[i];
    let mid = choose|mid: Game| #[trigger]
        moves_on(g, mid, arith, table, seat) && if mid.done {
            &&& rows_of(mid, rows)
            &&& h == (Game { history: h.history, ..mid })
            &&& h.history@.len() == 0
        } else {
            h == mid && rows.len() == 0
        };
    if !g.done {
        assert(mid.history@.len() == g.history@.len() + 1);
    }
    mid
}

/// The rows of the games join the results game by game, in order.
pub proof fn rows_join_in_order(parts: Seq<Seq<Row>>, n: nat, i: int, k: int) -> (at: int)
    requires
        0 <= i < n <= parts.len(),
        0 <= k < parts[i].len(),
    ensures
        0 <= at < joined(parts, n).len(),
        joined(parts, n)[at] == parts[i][k],
        i == 0 ==> at == k,
        at >= k,
    decreases n,
{
    if i < n - 1 {
        let at = rows_join_in_order(parts, (n - 1) as nat, i, k);
        assert(joined(parts, n)[at] == joined(parts, (n - 1) as nat)[at]);
        at
    } else {
        let front = joined(parts, (n - 1) as nat);
        assert(joined(parts, n)[front.len() + k] == parts[i][k]);
        if i == 0 {
            assert(joined(parts, 0).len() == 0);
        }
        front.len() as int + k
    }
}

/// What is told of the children of a root, in their order: the policy index, the visits and the
/// value of each.
pub proof fn stats_tell_the_children(a: Seq<NodeView>, j: int)
    requires
        0 <= j < a[0].children.len(),
    ensures
        child_stats(a).len() == a[0].children.len(),
        child_stats(a)[j].0 == a[a[0].children[j].1 as int].move_index,
        child_stats(a)[j].1 == a[a[0].children[j].1 as int].visit_count,
        child_stats(a)[j].2 == a[a[0].children[j].1 as int].value_sum,
{
}

/// How a search in step begins. Where every game that is being played has its moves at the root,
/// the first simulation comes next, with noise if the engine is set to it. Otherwise the
/// positions of the games that lack them are asked about, one row for each, in their order.
pub proof fn searches_in_step_begin_at_the_roots<A: Arithmetic, T: Table>(
    before: MctsEngine,
    after: MctsEngine,
    out: Option<Polled>,
    arith: A,
    table: T,
) -> (need: Seq<usize>)
    requires
        before.phase == Phase::RootExpand,
        poll_step(before, after, out, arith, table),
    ensures
        forall|k: int|
            0 <= k < need.len() ==> (#[trigger] need[k]) < before.games@.len()
                && !before.games@[need[k] as int].done
                && !before.games@[need[k] as int].arena@[0].expanded,
        forall|k: int, l: int|
            0 <= k < l < need.len() ==> #[trigger] need[k] < #[trigger] need[l],
        forall|i: int|
            0 <= i < before.games@.len() && !(#[trigger] before.games@[i]).done
                && !before.games@[i].arena@[0].expanded ==> need.contains(i as usize),
        need.len() == 0 ==> {
            &&& out is None
            &&& after.phase == Phase::Sim(0)
            &&& !before.add_root_noise ==> after.games@ == before.games@
            &&& before.add_root_noise ==> after.games@.len() == before.games@.len() && forall|i: int|
                0 <= i < before.games@.len() ==> crate::batch::gets_root_noise(
                    before.games@[i],
                    #[trigger] after.games@[i],
                    arith,
                    table,
                    before.seats@[i],
                )
        },
        need.len() > 0 ==> {
            &&& after.games == before.games
            &&& after.phase == Phase::RootExpand
            &&& after.pending matches Pending::Roots(v) && v@ == need
            &&& out matches Some(Ok(Some((enc, rows)))) && {
                &&& rows == need.len()
                &&& enc@.len() == need.len() * crate::tree::ENC_LEN
                &&& forall|k: int|
                    0 <= k < need.len() ==> #[trigger] crate::buckets::row_of(enc@, k)
                        == before.games@[need[k] as int].position.enc@
            }
        },
{
    assert(before.games@.len() == before.games.len());
    lemma_bare_roots(before.games@, before.games@.len());
    bare_roots(before.games@, before.games@.len())
}

/// The first child with a policy index: it has that index, and no earlier child has.
pub proof fn first_children_come_first(a: Seq<NodeView>, move_index: i32, p: int)
    requires
        is_first_child(a, move_index, p),
    ensures
        0 <= p < a[0].children.len(),
        a[a[0].children[p].1 as int].move_index == move_index,
        forall|k: int|
            0 <= k < p ==> a[(#[trigger] a[0].children[k]).1 as int].move_index != move_index,
{
    assert forall|k: int| 0 <= k < p implies a[(
    #[trigger] a[0].children[k]).1 as int].move_index != move_index by {
        assert(child(a, 0, k) == a[0].children[k].1);
    }
}

/// How a batch of leaves and its answer belong together in a search in step. The engine was polled
/// for a batch in the middle of a search, and the answer is applied to it. For every game that is
/// being played, the position at its leaf is final, and its value is backed up; or it has a row of
/// the batch, and moves and value come from the same row of the answer. One more simulation is
/// done.
pub proof fn answers_in_step_go_by_row<A: Arithmetic, T: Table>(
    before: MctsEngine,
    asking: MctsEngine,
    after: MctsEngine,
    s: usize,
    enc: Vec<Real32>,
    rows: usize,
    logits: Seq<Real32>,
    values: Seq<Real>,
    i: int,
    arith: A,
    table: T,
) -> (made: (Vec<usize>, Vec<u16>, Position, int, Seq<NodeView>))
    requires
        before.phase == Phase::Sim(s),
        s < before.sims,
        poll_step(
            before,
            asking,
            Some(Ok::<Option<(Vec<Real32>, usize)>, Halt>(Some((enc, rows)))),
            arith,
            table,
        ),
        applies(asking, after, logits, values, arith, table),
        0 <= i < before.games@.len(),
        !before.games@[i].done,
    ensures
        after.phase == Phase::Sim((s + 1) as usize),
        after.pending == Pending::Nothing,
        ({
            let (path, handles, at, r, mid) = made;
            let a = nodes(before.games@[i].arena@);
            let b = nodes(after.games@[i].arena@);
            &&& crate::search::walks(before.games@[i].arena@, arith, path@, handles@)
            &&& call_ensures(
                T::look,
                (&table, before.seats@[i], &before.games@[i].line, &handles),
                at,
            )
            &&& at.terminal matches Some(value) ==> crate::search::backs_up(
                a,
                b,
                path@,
                value,
                arith,
            )
            &&& at.terminal is None ==> {
                &&& 0 <= r < rows
                &&& crate::buckets::row_of(enc@, r) == at.enc@
                &&& crate::search::expands(
                    a,
                    mid,
                    path@.last() as int,
                    at.legal@,
                    crate::batch::policy_row(logits, r),
                    arith,
                )
                &&& crate::search::backs_up(mid, b, path@, values[r], arith)
            }
        }),
{
    assert(before.games@.len() == before.games.len());
    let (leaves, found, n) = choose|leaves: Vec<Leaf>, found: Seq<Real32>, n: int|
        {
            &&& #[trigger] gathers(
                before.games@,
                before.seats@,
                leaves@,
                found,
                n,
                arith,
                table,
            )
            &&& n != 0
            &&& enc@ == found
            &&& rows == n
            &&& asking == (MctsEngine { pending: Pending::Leaves(leaves), ..before })
        };
    leaves_have_their_row(
        before.games@,
        after.games@,
        before.seats@,
        leaves@,
        enc@,
        rows as int,
        logits,
        values,
        i,
        arith,
        table,
    )
}

/// What the answer for a batch of roots does in a search in step. The `k`-th game of the batch gets
/// the moves at its root from row `k` of the policies, and every other game keeps its tree. Then
/// every game gets its noise at the root, if the engine is set to it, and the first simulation
/// comes next.
pub proof fn roots_get_their_moves_and_noise<A: Arithmetic, T: Table>(
    before: MctsEngine,
    after: MctsEngine,
    need: Vec<usize>,
    logits: Seq<Real32>,
    values: Seq<Real>,
    arith: A,
    table: T,
) -> (rooted: Seq<Game>)
    requires
        before.pending == Pending::Roots(need),
        applies(before, after, logits, values, arith, table),
    ensures
        after.phase == Phase::Sim(0),
        after.pending == Pending::Nothing,
        rooted.len() == before.games@.len(),
        forall|k: int|
            0 <= k < need@.len() ==> crate::search::expands(
                nodes(before.games@[#[trigger] need@[k] as int].arena@),
                nodes(rooted[need@[k] as int].arena@),
                0,
                before.games@[need@[k] as int].position.legal@,
                crate::batch::policy_row(logits, k),
                arith,
            ),
        forall|i: int|
            0 <= i < rooted.len() && !need@.contains(i as usize) ==> #[trigger] rooted[i]
                == before.games@[i],
        !before.add_root_noise ==> after.games@ == rooted,
        before.add_root_noise ==> after.games@.len() == rooted.len() && forall|i: int|
            0 <= i < rooted.len() ==> crate::batch::gets_root_noise(
                rooted[i],
                #[trigger] after.games@[i],
                arith,
                table,
                before.seats@[i],
            ),
{
    let mid = choose|mid: Seq<Game>| #[trigger]
        expands_roots(before.games@, mid, need@, logits, arith) && noise_stage(
            mid,
            after.games@,
            before.seats@,
            before.add_root_noise,
            arith,
            table,
        );
    assert forall|k: int| 0 <= k < need@.len() implies crate::search::expands(
        nodes(before.games@[#[trigger] need@[k] as int].arena@),
        nodes(mid[need@[k] as int].arena@),
        0,
        before.games@[need@[k] as int].position.legal@,
        crate::batch::policy_row(logits, k),
        arith,
    ) by {
        assert(crate::batch::gets_root(
            before.games@[need@[k] as int],
            mid[need@[k] as int],
            logits,
            k,
            arith,
        ));
    }
    mid
}

/// How a round ends. Rows are handed out exactly when there are any: all of them, with the number
/// of games that ended, and none is kept. With refill, a game that is over makes room for a new
/// one at its seat, the others stay, and play is never over; without, every game stays, and play is
/// over exactly when all games are.
pub proof fn rounds_hand_out_their_rows<T: Table>(
    before: MctsEngine,
    after: MctsEngine,
    round: Round,
    refill: bool,
    table: T,
    i: int,
)
    requires
        ends_round(before, after, round, refill, table),
        engine_wf(before),
        0 <= i < before.games@.len(),
    ensures
        round.rows is Some <==> before.results@.len() > 0,
        round.rows matches Some((rows, n)) ==> rows@ == before.results@ && n == before.finished,
        after.results@.len() == 0,
        after.finished == 0,
        after.phase == before.phase,
        after.games@.len() == before.games@.len(),
        refill ==> !round.over,
        !before.games@[i].done || !refill ==> after.games@[i] == before.games@[i],
        before.games@[i].done && refill ==> {
            &&& !after.games@[i].done
            &&& after.games@[i].line@.len() == 0
            &&& after.games@[i].history@.len() == 0
            &&& after.games@[i].arena@.len() == 1
            &&& call_ensures(T::start, (&table, i as u64, None), after.games@[i].position)
        },
        !refill && round.over ==> before.games@[i].done,
        !refill && !round.over ==> exists|k: int|
            0 <= k < before.games@.len() && !(#[trigger] before.games@[k]).done,
{
    assert(before.seats@[i] == i as u64);
    if refill && before.games@[i].done {
        assert(is_new_game(after.games@[i], after.games@[i].position));
        assert(nodes(after.games@[i].arena@).len() == 1);
    }
}

} // verus!

//! A game in flight: a state machine that runs a game until it needs one evaluation by
//! the network, and goes on from there when the answer is in.
//!
//! A game has at most one evaluation outstanding. While it has one, it carries the
//! position to evaluate and the path of the search that led there.

use crate::arith::{softmax_fits, table_wf, Arithmetic, Table};
use crate::game::{
    finalize_rows, game_wf, is_live, is_row, moves_on, rows_wf, step_move, Game, Position, Row,
    MAX_PLIES,
};
use crate::ieee::{Real, Real32};
use crate::policy::{noise_step, root_noise};
use crate::search::{
    ascending, back_up_once, backs_up, blocked, expand_node, expands, moves_ok, path_within,
    priors_belong_to_their_moves, walk_to_leaf, walks, Move,
};
use crate::seeds::{game_seed, seed_of_game};
use crate::tree::{bushy, fresh_tree, nodes, visits_within, NodeView, ENC_LEN, POLICY_SIZE};
use std::sync::Arc;
use vstd::prelude::*;

verus! {

/// How a run of games is set up.
pub struct Config {
    /// Simulations per move.
    pub sims: usize,
    /// Whether exploration noise goes into the priors at the root.
    pub add_root_noise: bool,
    /// Positions per batch of evaluations.
    pub bucket_size: usize,
    /// Seed of the run.
    pub seed: u64,
}

/// Where the search for the next move stands.
#[derive(Clone, Copy, PartialEq, Eq, Structural)]
pub enum GamePhase {
    /// The moves at the root are to be generated.
    NeedRootExpand,
    /// So many simulations are done.
    Simulating(usize),
}

/// What the outstanding evaluation is for.
#[derive(Clone, Copy, PartialEq, Eq, Structural)]
pub enum LeafKind {
    /// To generate the moves at the root; nothing is backed up.
    RootExpand,
    /// To generate the moves at a leaf and back its value up.
    SimLeaf,
}

/// What is needed to go on when an evaluation arrives.
pub struct LeafCtx {
    pub kind: LeafKind,
    /// Arena indices from the root to the leaf.
    pub path: Vec<usize>,
    /// The legal moves at the leaf.
    pub legal: Vec<Move>,
}

/// An evaluation: one row of a batch of policies, which all games of the batch share, and
/// a value.
pub struct EvalResult {
    pub logits: Arc<Vec<Real32>>,
    /// Row of the batch.
    pub row: usize,
    /// Value from the point of view of the side to move at the leaf.
    pub value: Real,
}

/// A game in flight.
pub struct InFlight {
    pub id: u64,
    /// Seed of the game's random numbers.
    pub seed: u64,
    pub game: Game,
    pub phase: GamePhase,
    /// An evaluation that has arrived.
    pub pending: Option<EvalResult>,
    /// Present exactly while an evaluation is outstanding.
    pub leaf_ctx: Option<LeafCtx>,
    /// The encoded position of the leaf.
    pub staged_enc: Vec<Real32>,
}

/// The visit counts of a whole game fit in a node.
pub open spec fn config_wf(config: Config) -> bool {
    config.sims * MAX_PLIES <= u32::MAX
}

/// The row lies within the batch.
pub open spec fn row_fits(res: EvalResult) -> bool {
    (res.row + 1) * POLICY_SIZE <= res.logits@.len()
}

/// Simulations that a game has behind it: all those of the moves played, and those of
/// the search for the next move.
pub open spec fn sims_done(g: InFlight, sims: int) -> int {
    g.game.history@.len() * sims + match g.phase {
        GamePhase::NeedRootExpand => 0,
        GamePhase::Simulating(s) => s as int,
    }
}

/// An outstanding evaluation fits the state of the game: it is for a node whose moves were
/// never generated, at the end of a path from the root.
pub open spec fn leaf_wf(g: InFlight, ctx: LeafCtx, sims: int) -> bool {
    let a = nodes(g.game.arena@);
    &&& moves_ok(ctx.legal@)
    &&& ctx.legal@.len() > 0
    &&& ctx.path@.len() > 0
    &&& ctx.path@[0] == 0
    &&& path_within(ctx.path@, a.len())
    &&& ascending(ctx.path@)
    &&& !a[ctx.path@.last() as int].expanded
    &&& g.staged_enc@.len() == ENC_LEN
    &&& match ctx.kind {
        LeafKind::RootExpand => g.phase == GamePhase::NeedRootExpand && ctx.path@.len() == 1,
        LeafKind::SimLeaf => g.phase matches GamePhase::Simulating(s) && s < sims,
    }
}

/// Everything about a game in flight fits together.
pub open spec fn inflight_wf(g: InFlight, config: Config) -> bool {
    &&& game_wf(g.game)
    &&& is_live(g.game)
    &&& bushy(nodes(g.game.arena@))
    &&& visits_within(nodes(g.game.arena@), sims_done(g, config.sims as int))
    &&& g.phase matches GamePhase::Simulating(s) ==> s <= config.sims && g.game.arena@[0].expanded
    &&& g.leaf_ctx matches Some(ctx) ==> leaf_wf(g, ctx, config.sims as int)
    &&& g.pending matches Some(res) ==> g.leaf_ctx is Some && row_fits(res)
}

/// A game on its way: it has no evaluation outstanding and none to apply.
pub open spec fn on_its_way(g: InFlight) -> bool {
    g.leaf_ctx is None && g.pending is None
}

/// Starts a new game.
pub fn spawn_fresh<T: Table>(config: &Config, id: u64, table: &T) -> (g: InFlight)
    requires
        table_wf(*table),
    ensures
        inflight_wf(g, *config),
        on_its_way(g),
        g.id == id,
        g.seed == seed_of_game(config.seed, id),
        call_ensures(T::start, (table, id, Some(g.seed)), g.game.position),
        nodes(g.game.arena@) == fresh_tree(),
        g.game.history@.len() == 0,
        g.game.line@.len() == 0,
        g.phase == GamePhase::NeedRootExpand,
        g.staged_enc@.len() == 0,
{
    let seed: u64 = game_seed(config.seed, id);
    let position = table.start(id, Some(seed));
    let game = Game::from_board(position);
    assert(0 * config.sims == 0);
    InFlight {
        id,
        seed,
        game,
        phase: GamePhase::NeedRootExpand,
        pending: None,
        leaf_ctx: None,
        staged_enc: Vec::new(),
    }
}

/// Copies a list of moves.
fn copy_moves(legal: &Vec<Move>) -> (copy: Vec<Move>)
    ensures
        copy@ == legal@,
{
    let mut copy: Vec<Move> = Vec::new();
    let mut j: usize = 0;
    while j < legal.len()
        invariant
            0 <= j <= legal@.len(),
            copy@ == legal@.take(j as int),
        decreases legal@.len() - j,
    {
        copy.push(legal[j]);
        assert(copy@ =~= legal@.take(j + 1));
        j += 1;
    }
    assert(copy@ =~= legal@);
    copy
}

// --- applying an evaluation --------------------------------------------------

/// The policy row that belongs to a game.
pub open spec fn own_row(res: EvalResult) -> Seq<Real32> {
    res.logits@.subrange(res.row * POLICY_SIZE, (res.row + 1) * POLICY_SIZE)
}

/// The two games differ in their trees and in the state of the search only.
pub open spec fn same_game(before: InFlight, after: InFlight) -> bool {
    &&& after.id == before.id
    &&& after.seed == before.seed
    &&& after.game == (Game { arena: after.game.arena, ..before.game })
}

/// Applying an evaluation turns `before` into `after`. For the root, the moves are
/// generated and get their noise, and simulations begin. For a leaf, the moves are
/// generated, the value is backed up, and one more simulation is done.
pub open spec fn absorbs<A: Arithmetic, T: Table>(
    before: InFlight,
    after: InFlight,
    ctx: LeafCtx,
    res: EvalResult,
    config: Config,
    arith: A,
    table: T,
) -> bool {
    let a = nodes(before.game.arena@);
    let b = nodes(after.game.arena@);
    let leaf = ctx.path@.last() as int;
    &&& same_game(before, after)
    &&& on_its_way(after)
    &&& match ctx.kind {
        LeafKind::RootExpand => {
            &&& after.phase == GamePhase::Simulating(0)
            &&& exists|mid: Seq<NodeView>| #[trigger]
                expands(a, mid, 0, ctx.legal@, own_row(res), arith) && noise_step(
                    mid,
                    b,
                    config.add_root_noise,
                    arith,
                    table,
                    before.id,
                    before.game.line,
                )
        },
        LeafKind::SimLeaf => {
            &&& before.phase matches GamePhase::Simulating(s) && after.phase
                == GamePhase::Simulating((s + 1) as usize)
            &&& exists|mid: Seq<NodeView>| #[trigger]
                expands(a, mid, leaf, ctx.legal@, own_row(res), arith) && backs_up(
                    mid,
                    b,
                    ctx.path@,
                    res.value,
                    arith,
                )
        },
    }
}

/// What an answer does to the game that waited for it. The softmax is asked about the entries of
/// the answer's own row of the batch, which starts at `res.row` times the length of a policy, at
/// the policy indices of the legal moves of the leaf. The children that the leaf gets hold these
/// moves in order and have the answers as their priors. At the root, noise follows if the run asks
/// for it, nothing is backed up, and no simulation is counted. At any other leaf the value of the
/// answer is backed up along the way to the leaf, and one more simulation is counted.
pub proof fn answers_reach_their_leaf<A: Arithmetic, T: Table>(
    before: InFlight,
    after: InFlight,
    ctx: LeafCtx,
    res: EvalResult,
    config: Config,
    arith: A,
    table: T,
) -> (made: (Seq<NodeView>, Vec<Real32>, Vec<Real>))
    requires
        softmax_fits(arith),
        inflight_wf(before, config),
        before.leaf_ctx == Some(ctx),
        row_fits(res),
        before.game.arena@.len() + ctx.legal@.len() <= u32::MAX,
        absorbs(before, after, ctx, res, config, arith, table),
    ensures
        ({
            let (mid, row, priors) = made;
            let a = nodes(before.game.arena@);
            let b = nodes(after.game.arena@);
            let leaf = ctx.path@.last() as int;
            let legal = ctx.legal@;
            &&& call_ensures(A::softmax, (&arith, &row), priors)
            &&& row@.len() == legal.len()
            &&& forall|j: int|
                0 <= j < legal.len() ==> #[trigger] row@[j] == res.logits@[res.row * POLICY_SIZE
                    + legal[j].1]
            &&& mid.len() == a.len() + legal.len()
            &&& mid[leaf].expanded
            &&& forall|j: int|
                #![trigger legal[j]]
                0 <= j < legal.len() ==> {
                    &&& mid[a.len() + j].prior == priors@[j]
                    &&& mid[a.len() + j].move_index == legal[j].1
                    &&& mid[leaf].children[a[leaf].children.len() + j].0 == legal[j].0
                    &&& mid[leaf].children[a[leaf].children.len() + j].1 == a.len() + j
                }
            &&& after.id == before.id
            &&& after.game.line == before.game.line
            &&& after.game.history == before.game.history
            &&& after.leaf_ctx is None
            &&& after.pending is None
            &&& ctx.kind == LeafKind::RootExpand ==> {
                &&& leaf == 0
                &&& before.phase == GamePhase::NeedRootExpand
                &&& after.phase == GamePhase::Simulating(0)
                &&& !config.add_root_noise ==> b == mid
                &&& config.add_root_noise ==> crate::policy::gets_noise(
                    mid,
                    b,
                    0,
                    arith,
                    table,
                    before.id,
                    before.game.line,
                )
            }
            &&& ctx.kind == LeafKind::SimLeaf ==> {
                &&& backs_up(mid, b, ctx.path@, res.value, arith)
                &&& before.phase matches GamePhase::Simulating(s) && after.phase
                    == GamePhase::Simulating((s + 1) as usize)
            }
        }),
{
    let a = nodes(before.game.arena@);
    let b = nodes(after.game.arena@);
    let leaf = ctx.path@.last() as int;
    let own = own_row(res);
    assert(ctx.path@[ctx.path@.len() - 1] < a.len());
    let mid = match ctx.kind {
        LeafKind::RootExpand => choose|mid: Seq<NodeView>| #[trigger]
            expands(a, mid, 0, ctx.legal@, own, arith) && noise_step(
                mid,
                b,
                config.add_root_noise,
                arith,
                table,
                before.id,
                before.game.line,
            ),
        LeafKind::SimLeaf => choose|mid: Seq<NodeView>| #[trigger]
            expands(a, mid, leaf, ctx.legal@, own, arith) && backs_up(
                mid,
                b,
                ctx.path@,
                res.value,
                arith,
            ),
    };
    let (row, priors) = priors_belong_to_their_moves(a, mid, leaf, ctx.legal@, own, arith);
    assert forall|j: int| 0 <= j < ctx.legal@.len() implies #[trigger] row@[j]
        == res.logits@[res.row * POLICY_SIZE + ctx.legal@[j].1] by {
        assert(0 <= ctx.legal@[j].1 < POLICY_SIZE);
        assert((res.row + 1) * POLICY_SIZE == res.row * POLICY_SIZE + POLICY_SIZE)
            by (nonlinear_arith);
        assert(row@[j] == own[ctx.legal@[j].1 as int]);
    }
    (mid, row, priors)
}

pub proof fn lemma_room(len: int, sims: int, s: int)
    requires
        0 <= len < MAX_PLIES,
        0 <= s <= sims,
        sims * MAX_PLIES <= u32::MAX,
    ensures
        0 <= len * sims + s <= u32::MAX,
        s < sims ==> len * sims + s + 1 <= u32::MAX,
        len * sims + sims == (len + 1) * sims,
{
    assert(len * sims + sims == (len + 1) * sims) by (nonlinear_arith);
    assert((len + 1) * sims <= sims * MAX_PLIES) by (nonlinear_arith)
        requires
            0 <= len < MAX_PLIES,
            0 <= sims,
    ;
    assert(0 <= len * sims) by (nonlinear_arith)
        requires
            0 <= len,
            0 <= sims,
    ;
}

/// Applies an evaluation to the tree of the game it belongs to.
pub fn apply_result<A: Arithmetic, T: Table>(
    g: &mut InFlight,
    res: EvalResult,
    config: &Config,
    arith: &A,
    table: &T,
)
    requires
        config_wf(*config),
        softmax_fits(*arith),
        inflight_wf(*old(g), *config),
        old(g).pending is None,
        old(g).leaf_ctx is Some,
        row_fits(res),
        old(g).game.arena@.len() + old(g).leaf_ctx->0.legal@.len() <= u32::MAX,
    ensures
        absorbs(*old(g), *final(g), old(g).leaf_ctx->0, res, *config, *arith, *table),
        inflight_wf(*final(g), *config),
{
    let ghost g0 = *g;
    let ghost a = nodes(g.game.arena@);
    let ghost ctx0 = g.leaf_ctx->0;
    if let Some(ctx) = g.leaf_ctx.take() {
        let LeafCtx { kind, path, legal } = ctx;
        assert(res.logits@.len() == res.logits.len());
        let from: usize = res.row * POLICY_SIZE;
        let logits = vstd::slice::slice_subrange(res.logits.as_slice(), from, from + POLICY_SIZE);
        assert(logits@ =~= own_row(res));
        let leaf: usize = path[path.len() - 1];
        proof {
            assert(a[leaf as int] == g.game.arena@[leaf as int]@);
        }
        expand_node(&mut g.game.arena, leaf, &legal, logits, arith);
        let ghost mid = nodes(g.game.arena@);
        assert(expands(a, mid, leaf as int, legal@, own_row(res), *arith));
        match kind {
            LeafKind::RootExpand => {
                root_noise(
                    &mut g.game.arena,
                    config.add_root_noise,
                    arith,
                    table,
                    g.id,
                    &g.game.line,
                );
                g.phase = GamePhase::Simulating(0);
            },
            LeafKind::SimLeaf => {
                if let GamePhase::Simulating(s) = g.phase {
                    proof {
                        lemma_room(g0.game.history@.len() as int, config.sims as int, s as int);
                        if leaf != 0 {
                            assert(g.game.arena@[0]@ == a[0]);
                        }
                    }
                    back_up_once(&mut g.game.arena, &path, res.value, arith);
                    g.phase = GamePhase::Simulating(s + 1);
                }
            },
        }
    }
}

// --- running a game ----------------------------------------------------------

/// Why a game stopped running.
pub enum Advance {
    /// It needs an evaluation, which is staged.
    Eval,
    /// It is over; these are its training rows.
    Done(Vec<Row>),
    /// Some node has children and none of them can be selected.
    Stuck,
}

/// The evaluation of a position is staged, and nothing else changes.
pub open spec fn stages(
    before: InFlight,
    after: InFlight,
    kind: LeafKind,
    path: Seq<usize>,
    at: Position,
) -> bool {
    &&& after == (InFlight { staged_enc: after.staged_enc, leaf_ctx: after.leaf_ctx, ..before })
    &&& after.staged_enc@ == at.enc@
    &&& after.leaf_ctx matches Some(ctx) && ctx.kind == kind && ctx.path@ == path && ctx.legal@
        == at.legal@
}

/// The root of a kept tree has its moves already: it gets its noise, and simulations
/// begin.
pub open spec fn opens_search<A: Arithmetic, T: Table>(
    before: InFlight,
    after: InFlight,
    config: Config,
    arith: A,
    table: T,
) -> bool {
    &&& same_game(before, after)
    &&& after == (InFlight { game: after.game, phase: GamePhase::Simulating(0), ..before })
    &&& noise_step(
        nodes(before.game.arena@),
        nodes(after.game.arena@),
        config.add_root_noise,
        arith,
        table,
        before.id,
        before.game.line,
    )
}

/// The rows are those of the recorded game.
pub open spec fn rows_of(g: Game, rows: Seq<Row>) -> bool {
    &&& rows.len() == g.history@.len()
    &&& forall|k: int|
        0 <= k < rows.len() ==> is_row(#[trigger] rows[k], g.history@[k], g.result as int)
}

/// The search is done and a move is played. A game that is over gives its rows; otherwise
/// the search for the next move begins.
pub open spec fn plays_on<A: Arithmetic, T: Table>(
    before: InFlight,
    after: InFlight,
    outcome: Option<Advance>,
    arith: A,
    table: T,
) -> bool {
    exists|mid: Game| #[trigger]
        moves_on(before.game, mid, arith, table, before.id) && if mid.done {
            &&& outcome matches Some(Advance::Done(rows)) && rows_of(mid, rows@)
            &&& after == (InFlight { game: after.game, ..before })
            &&& after.game == (Game { history: after.game.history, ..mid })
            &&& after.game.history@.len() == 0
        } else {
            &&& outcome is None
            &&& after == (InFlight { game: mid, phase: GamePhase::NeedRootExpand, ..before })
        }
}

/// One simulation: the way to a leaf is walked. The value of a finished position is backed
/// up at once; any other position is staged for evaluation.
pub open spec fn simulates<A: Arithmetic, T: Table>(
    before: InFlight,
    after: InFlight,
    s: usize,
    outcome: Option<Advance>,
    arith: A,
    table: T,
) -> bool {
    exists|path: Vec<usize>, handles: Vec<u16>, leaf: Position|
        {
            &&& #[trigger] walks(before.game.arena@, arith, path@, handles@)
            &&& #[trigger] call_ensures(
                T::look,
                (&table, before.id, &before.game.line, &handles),
                leaf,
            )
            &&& match leaf.terminal {
                Some(value) => {
                    &&& outcome is None
                    &&& same_game(before, after)
                    &&& after == (InFlight {
                        game: after.game,
                        phase: GamePhase::Simulating((s + 1) as usize),
                        ..before
                    })
                    &&& backs_up(
                        nodes(before.game.arena@),
                        nodes(after.game.arena@),
                        path@,
                        value,
                        arith,
                    )
                },
                None => {
                    &&& outcome == Some(Advance::Eval)
                    &&& stages(before, after, LeafKind::SimLeaf, path@, leaf)
                },
            }
        }
}

/// One step of a game turns `before` into `after`; `outcome` tells whether it stopped.
pub open spec fn ticks<A: Arithmetic, T: Table>(
    before: InFlight,
    after: InFlight,
    outcome: Option<Advance>,
    config: Config,
    arith: A,
    table: T,
) -> bool {
    match before.phase {
        GamePhase::NeedRootExpand => if before.game.arena@[0].expanded {
            outcome is None && opens_search(before, after, config, arith, table)
        } else {
            outcome == Some(Advance::Eval) && stages(
                before,
                after,
                LeafKind::RootExpand,
                seq![0usize],
                before.game.position,
            )
        },
        GamePhase::Simulating(s) => if s >= config.sims {
            plays_on(before, after, outcome, arith, table)
        } else {
            ||| outcome == Some(Advance::Stuck) && after == before && blocked(
                before.game.arena@,
                arith,
            )
            ||| simulates(before, after, s, outcome, arith, table)
        },
    }
}

/// How the search for a move begins. A root without generated moves is put up for evaluation
/// with the position of the game and its legal moves. A root that was kept with its moves goes
/// straight to its first simulation, with noise if the run asks for it.
pub proof fn searches_begin_at_the_root<A: Arithmetic, T: Table>(
    before: InFlight,
    after: InFlight,
    outcome: Option<Advance>,
    config: Config,
    arith: A,
    table: T,
)
    requires
        before.phase == GamePhase::NeedRootExpand,
        ticks(before, after, outcome, config, arith, table),
    ensures
        !before.game.arena@[0].expanded ==> {
            &&& outcome == Some(Advance::Eval)
            &&& after.game == before.game
            &&& after.phase == GamePhase::NeedRootExpand
            &&& after.staged_enc@ == before.game.position.enc@
            &&& after.leaf_ctx matches Some(ctx) && ctx.kind == LeafKind::RootExpand
                && ctx.legal@ == before.game.position.legal@ && ctx.path@.len() == 1 && ctx.path@[0]
                == 0
        },
        before.game.arena@[0].expanded ==> {
            &&& outcome is None
            &&& after.phase == GamePhase::Simulating(0)
            &&& after.game.line == before.game.line
            &&& after.game.history == before.game.history
            &&& after.leaf_ctx == before.leaf_ctx
            &&& !config.add_root_noise ==> nodes(after.game.arena@) == nodes(before.game.arena@)
            &&& config.add_root_noise ==> crate::policy::gets_noise(
                nodes(before.game.arena@),
                nodes(after.game.arena@),
                0,
                arith,
                table,
                before.id,
                before.game.line,
            )
        },
{
}

/// What a simulation does, unless the way down is blocked. It walks from the root to a leaf, and
/// the table tells the position that the moves on the way lead to from the end of the line. Where
/// that position is final, its value is backed up along the way, and one more simulation is
/// counted. Any other position is put up for evaluation with its legal moves, and nothing is
/// counted yet.
pub proof fn simulations_ask_about_their_leaf<A: Arithmetic, T: Table>(
    before: InFlight,
    after: InFlight,
    s: usize,
    outcome: Option<Advance>,
    config: Config,
    arith: A,
    table: T,
) -> (walk: (Vec<usize>, Vec<u16>, Position))
    requires
        before.phase == GamePhase::Simulating(s),
        s < config.sims,
        outcome != Some(Advance::Stuck),
        ticks(before, after, outcome, config, arith, table),
    ensures
        ({
            let (path, handles, leaf) = walk;
            &&& walks(before.game.arena@, arith, path@, handles@)
            &&& call_ensures(T::look, (&table, before.id, &before.game.line, &handles), leaf)
            &&& leaf.terminal matches Some(value) ==> {
                &&& outcome is None
                &&& backs_up(
                    nodes(before.game.arena@),
                    nodes(after.game.arena@),
                    path@,
                    value,
                    arith,
                )
                &&& after.phase == GamePhase::Simulating((s + 1) as usize)
                &&& after.game.line == before.game.line
                &&& after.game.history == before.game.history
                &&& after.leaf_ctx == before.leaf_ctx
            }
            &&& leaf.terminal is None ==> {
                &&& outcome == Some(Advance::Eval)
                &&& after.game == before.game
                &&& after.phase == GamePhase::Simulating(s)
                &&& after.staged_enc@ == leaf.enc@
                &&& after.leaf_ctx matches Some(ctx) && ctx.kind == LeafKind::SimLeaf && ctx.path@
                    == path@ && ctx.legal@ == leaf.legal@
            }
        }),
{
    choose|path: Vec<usize>, handles: Vec<u16>, leaf: Position|
        {
            &&& #[trigger] walks(before.game.arena@, arith, path@, handles@)
            &&& #[trigger] call_ensures(
                T::look,
                (&table, before.id, &before.game.line, &handles),
                leaf,
            )
            &&& match leaf.terminal {
                Some(value) => {
                    &&& outcome is None
                    &&& same_game(before, after)
                    &&& after == (InFlight {
                        game: after.game,
                        phase: GamePhase::Simulating((s + 1) as usize),
                        ..before
                    })
                    &&& backs_up(
                        nodes(before.game.arena@),
                        nodes(after.game.arena@),
                        path@,
                        value,
                        arith,
                    )
                },
                None => {
                    &&& outcome == Some(Advance::Eval)
                    &&& stages(before, after, LeafKind::SimLeaf, path@, leaf)
                },
            }
        }
}

/// Steps that the search for the next move still takes, at most.
pub open spec fn steps_left(g: InFlight, sims: int) -> int {
    match g.phase {
        GamePhase::NeedRootExpand => sims + 1,
        GamePhase::Simulating(s) => sims - s,
    }
}

/// What holds of a game after it stopped.
pub open spec fn stopped_wf(g: InFlight, advance: Advance, config: Config) -> bool {
    match advance {
        Advance::Eval => inflight_wf(g, config) && g.leaf_ctx is Some && g.pending is None,
        Advance::Done(rows) => {
            &&& g.game.done
            &&& 0 < rows@.len() <= MAX_PLIES
            &&& rows_wf(rows@)
            &&& on_its_way(g)
        },
        Advance::Stuck => inflight_wf(g, config) && on_its_way(g),
    }
}

/// Takes one step. `None` means that the game can go on.
pub fn tick<A: Arithmetic, T: Table>(
    g: &mut InFlight,
    config: &Config,
    arith: &A,
    table: &T,
) -> (outcome: Option<Advance>)
    requires
        config_wf(*config),
        table_wf(*table),
        inflight_wf(*old(g), *config),
        on_its_way(*old(g)),
    ensures
        ticks(*old(g), *final(g), outcome, *config, *arith, *table),
        match outcome {
            None => {
                &&& inflight_wf(*final(g), *config)
                &&& on_its_way(*final(g))
                &&& final(g).game.history@.len() > old(g).game.history@.len() || (
                final(g).game.history@.len() == old(g).game.history@.len() && steps_left(
                    *final(g),
                    config.sims as int,
                ) < steps_left(*old(g), config.sims as int))
            },
            Some(advance) => stopped_wf(*final(g), advance, *config),
        },
{
    let ghost g0 = *g;
    let ghost a = nodes(g.game.arena@);
    match g.phase {
        GamePhase::NeedRootExpand => {
            if g.game.arena[0].expanded {
                root_noise(
                    &mut g.game.arena,
                    config.add_root_noise,
                    arith,
                    table,
                    g.id,
                    &g.game.line,
                );
                g.phase = GamePhase::Simulating(0);
                return None;
            }
            let mut path: Vec<usize> = Vec::new();
            path.push(0);
            assert(path@ =~= seq![0usize]);
            assert(a[0] == g.game.arena@[0]@);
            g.staged_enc = g.game.position.enc.clone();
            g.leaf_ctx = Some(
                LeafCtx {
                    kind: LeafKind::RootExpand,
                    path,
                    legal: copy_moves(&g.game.position.legal),
                },
            );
            Some(Advance::Eval)
        },
        GamePhase::Simulating(s) => {
            proof {
                lemma_room(g0.game.history@.len() as int, config.sims as int, s as int);
                assert(a[0] == g.game.arena@[0]@);
            }
            if s >= config.sims {
                let id = g.id;
                step_move(&mut g.game, arith, table, id);
                let ghost mid = g.game;
                assert(moves_on(g0.game, mid, *arith, *table, id));
                if g.game.done {
                    let rows = finalize_rows(&mut g.game);
                    return Some(Advance::Done(rows));
                }
                g.phase = GamePhase::NeedRootExpand;
                return None;
            }
            match walk_to_leaf(&g.game.arena, 0, arith) {
                None => Some(Advance::Stuck),
                Some((path, handles)) => {
                    assert(walks(g0.game.arena@, *arith, path@, handles@));
                    let leaf = table.look(g.id, &g.game.line, &handles);
                    assert(call_ensures(T::look, (table, g0.id, &g0.game.line, &handles), leaf));
                    assert(path_within(path@, a.len()));
                    match leaf.terminal {
                        Some(value) => {
                            back_up_once(&mut g.game.arena, &path, value, arith);
                            g.phase = GamePhase::Simulating(s + 1);
                            None
                        },
                        None => {
                            assert(a[path@.last() as int]
                                == g.game.arena@[path@.last() as int]@);
                            let Position { legal, enc, white_to_move: _, outcome: _, terminal: _ } =
                                leaf;
                            g.staged_enc = enc;
                            g.leaf_ctx = Some(LeafCtx { kind: LeafKind::SimLeaf, path, legal });
                            Some(Advance::Eval)
                        },
                    }
                },
            }
        },
    }
}

/// The `k`-th step of the trace did not stop the game.
pub open spec fn quiet_step<A: Arithmetic, T: Table>(
    trace: Seq<InFlight>,
    k: int,
    config: Config,
    arith: A,
    table: T,
) -> bool {
    ticks(trace[k], trace[k + 1], None, config, arith, table)
}

/// The trace leads from `before`, by steps that do not stop the game, to a step that stops
/// it in `after`.
pub open spec fn runs<A: Arithmetic, T: Table>(
    trace: Seq<InFlight>,
    before: InFlight,
    after: InFlight,
    advance: Advance,
    config: Config,
    arith: A,
    table: T,
) -> bool {
    &&& trace.len() > 0
    &&& trace[0] == before
    &&& forall|k: int|
        0 <= k < trace.len() - 1 ==> #[trigger] quiet_step(trace, k, config, arith, table)
    &&& ticks(trace.last(), after, Some(advance), config, arith, table)
}

/// Runs a game until it needs one evaluation or is over.
pub fn advance_until_eval_or_done<A: Arithmetic, T: Table>(
    g: &mut InFlight,
    config: &Config,
    arith: &A,
    table: &T,
) -> (advance: Advance)
    requires
        config_wf(*config),
        table_wf(*table),
        inflight_wf(*old(g), *config),
        on_its_way(*old(g)),
    ensures
        exists|trace: Seq<InFlight>| #[trigger]
            runs(trace, *old(g), *final(g), advance, *config, *arith, *table),
        stopped_wf(*final(g), advance, *config),
{
    let ghost mut trace: Seq<InFlight> = seq![*g];
    loop
        invariant
            config_wf(*config),
            table_wf(*table),
            inflight_wf(*g, *config),
            on_its_way(*g),
            trace.len() > 0,
            trace[0] == *old(g),
            trace.last() == *g,
            forall|k: int|
                0 <= k < trace.len() - 1 ==> #[trigger] quiet_step(
                    trace,
                    k,
                    *config,
                    *arith,
                    *table,
                ),
        decreases MAX_PLIES - g.game.history@.len(), steps_left(*g, config.sims as int),
    {
        match tick(g, config, arith, table) {
            Some(advance) => {
                assert(runs(trace, *old(g), *g, advance, *config, *arith, *table));
                return advance;
            },
            None => {
                proof {
                    let earlier = trace;
                    trace = trace.push(*g);
                    assert forall|k: int| 0 <= k < trace.len() - 1 implies #[trigger] quiet_step(
                        trace,
                        k,
                        *config,
                        *arith,
                        *table,
                    ) by {
                        if k < earlier.len() - 1 {
                            assert(quiet_step(earlier, k, *config, *arith, *table));
                            assert(trace[k] == earlier[k] && trace[k + 1] == earlier[k + 1]);
                        }
                    }
                }
            },
        }
    }
}

/// A game that a worker may pick up: it has no evaluation outstanding, or its answer is in.
pub open spec fn may_run(g: InFlight) -> bool {
    g.leaf_ctx is Some <==> g.pending is Some
}

/// A worker's turn leads from `before` to `after`: an answer that is in is applied, and
/// then the game runs until it stops.
pub open spec fn takes_turn<A: Arithmetic, T: Table>(
    before: InFlight,
    after: InFlight,
    advance: Advance,
    config: Config,
    arith: A,
    table: T,
) -> bool {
    exists|mid: InFlight, trace: Seq<InFlight>| #[trigger]
        runs(trace, mid, after, advance, config, arith, table) && match before.pending {
            Some(res) => absorbs(before, mid, before.leaf_ctx->0, res, config, arith, table),
            None => mid == before,
        }
}

/// A worker's turn with a game: applies the answer that is in, if any, and runs the game
/// until it needs the next evaluation or is over.
pub fn worker_turn<A: Arithmetic, T: Table>(
    g: &mut InFlight,
    config: &Config,
    arith: &A,
    table: &T,
) -> (advance: Advance)
    requires
        config_wf(*config),
        softmax_fits(*arith),
        table_wf(*table),
        inflight_wf(*old(g), *config),
        may_run(*old(g)),
        old(g).leaf_ctx matches Some(ctx) ==> old(g).game.arena@.len() + ctx.legal@.len()
            <= u32::MAX,
    ensures
        takes_turn(*old(g), *final(g), advance, *config, *arith, *table),
        stopped_wf(*final(g), advance, *config),
{
    let ghost before = *g;
    if let Some(res) = g.pending.take() {
        let ghost waiting = *g;
        apply_result(g, res, config, arith, table);
        assert(absorbs(waiting, *g, waiting.leaf_ctx->0, res, *config, *arith, *table));
        assert(absorbs(before, *g, before.leaf_ctx->0, res, *config, *arith, *table));
    }
    let ghost mid = *g;
    let advance = advance_until_eval_or_done(g, config, arith, table);
    proof {
        let trace = choose|trace: Seq<InFlight>| #[trigger]
            runs(trace, mid, *g, advance, *config, *arith, *table);
        assert(runs(trace, mid, *g, advance, *config, *arith, *table));
    }
    advance
}

/// What a result is worth to a side: one to the winner, minus one to the loser, and in a draw
/// zero to White and minus zero to Black.
pub open spec fn worth(z: Real32, result: int, white: bool) -> bool {
    &&& result > 0 && white || result < 0 && !white ==> z == 0x3f80_0000
    &&& result > 0 && !white || result < 0 && white ==> z == 0xbf80_0000
    &&& result == 0 && white ==> z == 0
    &&& result == 0 && !white ==> z == 0x8000_0000
}

/// The rows of a game whose last move ended it tell every move of it in order: one row for each
/// that was on record before, and a last one for the position in which the last move was chosen.
/// Each is worth what the result is worth to the side that was to move.
pub proof fn finished_games_tell_every_move<A: Arithmetic, T: Table>(
    before: Game,
    ended: Game,
    rows: Seq<Row>,
    arith: A,
    table: T,
    seat: u64,
)
    requires
        moves_on(before, ended, arith, table, seat),
        rows_of(ended, rows),
    ensures
        rows.len() == before.history@.len() + 1,
        forall|k: int|
            0 <= k < before.history@.len() ==> (#[trigger] rows[k]).state@
                == before.history@[k].state@ && rows[k].pi@ == before.history@[k].pi@ && worth(
                rows[k].z,
                ended.result as int,
                before.history@[k].turn,
            ),
        rows.last().state@ == before.position.enc@,
        worth(rows.last().z, ended.result as int, before.position.white_to_move),
{
    let n = before.history@.len() as int;
    assert(ended.history@.len() == n + 1);
    assert forall|k: int| 0 <= k < rows.len() implies worth(
        (#[trigger] rows[k]).z,
        ended.result as int,
        ended.history@[k].turn,
    ) by {
        assert(is_row(rows[k], ended.history@[k], ended.result as int));
        crate::game::rows_are_worth_the_result(
            rows[k],
            ended.history@[k],
            ended.result as int,
        );
    }
    assert forall|k: int| 0 <= k < n implies (#[trigger] rows[k]).state@
        == before.history@[k].state@ && rows[k].pi@ == before.history@[k].pi@ && worth(
        rows[k].z,
        ended.result as int,
        before.history@[k].turn,
    ) by {
        assert(is_row(rows[k], ended.history@[k], ended.result as int));
        assert(ended.history@[k] == before.history@[k]);
    }
    assert(is_row(rows[n], ended.history@[n], ended.result as int));
}

/// What the last step of a search does: the move of the game is played with the visit counts as
/// they are. A game that it ends gives its rows; any other game goes on to the search for the
/// next move, with nothing outstanding.
pub proof fn searches_end_with_a_move<A: Arithmetic, T: Table>(
    before: InFlight,
    after: InFlight,
    outcome: Option<Advance>,
    config: Config,
    arith: A,
    table: T,
) -> (moved: Game)
    requires
        before.phase matches GamePhase::Simulating(s) && s >= config.sims,
        ticks(before, after, outcome, config, arith, table),
    ensures
        moves_on(before.game, moved, arith, table, before.id),
        moved.done ==> (outcome matches Some(Advance::Done(rows)) && rows_of(moved, rows@)),
        !moved.done ==> {
            &&& outcome is None
            &&& after.game == moved
            &&& after.phase == GamePhase::NeedRootExpand
            &&& after.leaf_ctx == before.leaf_ctx
            &&& after.pending == before.pending
        },
        after.id == before.id,
        after.seed == before.seed,
{
    choose|mid: Game| #[trigger]
        moves_on(before.game, mid, arith, table, before.id) && if mid.done {
            &&& outcome matches Some(Advance::Done(rows)) && rows_of(mid, rows@)
            &&& after == (InFlight { game: after.game, ..before })
            &&& after.game == (Game { history: after.game.history, ..mid })
            &&& after.game.history@.len() == 0
        } else {
            &&& outcome is None
            &&& after == (InFlight { game: mid, phase: GamePhase::NeedRootExpand, ..before })
        }
}

} // verus!

//! A self-play game: the position on the board, the search tree below it, and the
//! record of the moves played so far.

use crate::arith::{table_wf, Arithmetic, Table};
use crate::ieee::{neg32, negated32, Real, Real32, MINUS_ONE32, ONE32, ZERO32};
use crate::policy::{is_policy, is_sample, sample_move, visits_to_pi};
use crate::search::{moves_ok, Move};
use crate::tree::{
    arena_wf, bushy, copied, copy_subtree, fresh_tree, nodes, same_shape, subtree_fits_in_the_arena,
    tree_of, visits_within, Node, NodeView, ENC_LEN, POLICY_SIZE,
};
use vstd::prelude::*;

verus! {

/// Plies that are sampled at the opening temperature.
pub const TEMP_MOVES: usize = 20;

/// Plies over which the temperature then falls to its floor.
pub const TEMP_ANNEAL: usize = 40;

/// A game that reaches this many plies is a draw.
pub const MAX_PLIES: usize = 256;

/// What the search and the record read of a chess position.
pub struct Position {
    /// The legal moves, in the order in which they are generated.
    pub legal: Vec<Move>,
    /// The encoded position, oriented for the side to move.
    pub enc: Vec<Real32>,
    /// Whether it is White's turn.
    pub white_to_move: bool,
    /// Result of a finished game from White's point of view: 1, 0 or -1.
    pub outcome: Option<i8>,
    /// Value of a finished position from the point of view of the side to move.
    pub terminal: Option<Real>,
}

/// A result from White's point of view.
pub open spec fn is_result(r: int) -> bool {
    -1 <= r <= 1
}

/// The moves have policy indices, the encoding is complete, a result is a win, a draw or
/// a loss, and a position in which play goes on has a move.
pub open spec fn position_wf(p: Position) -> bool {
    &&& moves_ok(p.legal@)
    &&& p.enc@.len() == ENC_LEN
    &&& p.outcome matches Some(r) ==> is_result(r as int)
    &&& p.outcome is None || p.terminal is None ==> p.legal@.len() > 0
}

impl Position {
    /// Checks a position before it is handed to a search.
    pub fn is_valid(&self) -> (ok: bool)
        ensures
            ok == position_wf(*self),
    {
        let mut j: usize = 0;
        while j < self.legal.len()
            invariant
                0 <= j <= self.legal@.len(),
                forall|k: int| 0 <= k < j ==> 0 <= (#[trigger] self.legal@[k]).1 < POLICY_SIZE,
            decreases self.legal@.len() - j,
        {
            let (_, index) = self.legal[j];
            if index < 0 || index as usize >= POLICY_SIZE {
                assert(!(0 <= self.legal@[j as int].1 < POLICY_SIZE));
                return false;
            }
            j += 1;
        }
        let result_ok = match self.outcome {
            Some(r) => -1 <= r && r <= 1,
            None => true,
        };
        let goes_on = self.outcome.is_none() || self.terminal.is_none();
        self.enc.len() == ENC_LEN && result_ok && (!goes_on || self.legal.len() > 0)
    }
}

/// One recorded decision: the encoded position, the search policy, and whether it was
/// White's turn.
pub struct Record {
    pub state: Vec<Real32>,
    pub pi: Vec<Real32>,
    pub turn: bool,
}

/// One training row: the encoded position, the search policy, and the result from the
/// point of view of the side that was to move.
pub struct Row {
    pub state: Vec<Real32>,
    pub pi: Vec<Real32>,
    pub z: Real32,
}

/// The row has the shape of a training row.
pub open spec fn row_wf(row: Row) -> bool {
    row.state@.len() == ENC_LEN && row.pi@.len() == POLICY_SIZE
}

/// Every row has the shape of a training row.
pub open spec fn rows_wf(rows: Seq<Row>) -> bool {
    forall|k: int| 0 <= k < rows.len() ==> row_wf(#[trigger] rows[k])
}

/// A game in progress.
pub struct Game {
    pub position: Position,
    /// The moves that led to the position from the start of the game.
    pub line: Vec<u16>,
    /// The search tree, with the root at index 0.
    pub arena: Vec<Node>,
    pub history: Vec<Record>,
    pub done: bool,
    /// Result from White's point of view.
    pub result: i8,
}

/// The record has the shape of a training row.
pub open spec fn record_wf(r: Record) -> bool {
    r.state@.len() == ENC_LEN && r.pi@.len() == POLICY_SIZE
}

/// Every part of the game is well-formed, and the record does not exceed the ply cap.
pub open spec fn game_wf(g: Game) -> bool {
    &&& position_wf(g.position)
    &&& arena_wf(nodes(g.arena@))
    &&& is_result(g.result as int)
    &&& g.history@.len() <= MAX_PLIES
    &&& forall|k: int| 0 <= k < g.history@.len() ==> record_wf(#[trigger] g.history@[k])
}

/// Play goes on.
pub open spec fn is_live(g: Game) -> bool {
    &&& !g.done
    &&& g.position.outcome is None
    &&& g.history@.len() < MAX_PLIES
}

/// How far the temperature has come from its opening value to its floor after `ply` plies,
/// in steps of which [`TEMP_ANNEAL`] make the whole way.
pub open spec fn anneal_steps(ply: int) -> int {
    if ply < TEMP_MOVES {
        0
    } else if ply - TEMP_MOVES < TEMP_ANNEAL {
        ply - TEMP_MOVES
    } else {
        TEMP_ANNEAL as int
    }
}

/// Steps that the temperature has come from its opening value to its floor.
pub fn steps_annealed(ply: usize) -> (steps: usize)
    ensures
        steps == anneal_steps(ply as int),
{
    if ply < TEMP_MOVES {
        0
    } else if ply - TEMP_MOVES < TEMP_ANNEAL {
        ply - TEMP_MOVES
    } else {
        TEMP_ANNEAL
    }
}

/// The temperature never moves back towards its opening value, and stays at the floor
/// once it got there.
pub proof fn annealing_is_monotone(ply: int, later: int)
    requires
        0 <= ply <= later,
    ensures
        0 <= anneal_steps(ply) <= anneal_steps(later) <= TEMP_ANNEAL,
        later < TEMP_MOVES ==> anneal_steps(later) == 0,
        ply >= TEMP_MOVES + TEMP_ANNEAL ==> anneal_steps(ply) == TEMP_ANNEAL,
{
}

/// A result as a single-precision number.
pub open spec fn result_bits(r: int) -> Real32 {
    if r > 0 {
        ONE32
    } else if r < 0 {
        MINUS_ONE32
    } else {
        ZERO32
    }
}

/// A result as a single-precision number.
pub fn result_to_bits(r: i8) -> (bits: Real32)
    requires
        is_result(r as int),
    ensures
        bits == result_bits(r as int),
{
    if r > 0 {
        ONE32
    } else if r < 0 {
        MINUS_ONE32
    } else {
        ZERO32
    }
}

/// White's result as the side to move sees it.
pub open spec fn outcome_for(result: int, white: bool) -> Real32 {
    if white {
        result_bits(result)
    } else {
        negated32(result_bits(result))
    }
}

/// What one side wins the other loses, and a draw is worth nothing to both.
pub proof fn sides_score_oppositely(result: int)
    ensures
        outcome_for(result, false) == negated32(outcome_for(result, true)),
        result > 0 ==> outcome_for(result, true) == ONE32 && outcome_for(result, false)
            == MINUS_ONE32,
        result < 0 ==> outcome_for(result, true) == MINUS_ONE32 && outcome_for(result, false)
            == ONE32,
        result == 0 ==> outcome_for(result, true) == ZERO32,
{
}

/// The training row of a record in a game with the given result.
pub open spec fn is_row(row: Row, rec: Record, result: int) -> bool {
    row.state == rec.state && row.pi == rec.pi && row.z == outcome_for(result, rec.turn)
}

/// Place of the first edge with the given handle.
pub open spec fn first_edge(edges: Seq<(u16, u32)>, handle: u16, p: int) -> bool {
    &&& 0 <= p < edges.len()
    &&& edges[p].0 == handle
    &&& forall|k: int| 0 <= k < p ==> (#[trigger] edges[k]).0 != handle
}

/// No edge carries the handle.
pub open spec fn no_edge(edges: Seq<(u16, u32)>, handle: u16) -> bool {
    forall|k: int| 0 <= k < edges.len() ==> (#[trigger] edges[k]).0 != handle
}

/// Playing `handle` at the root of `before` leaves `after`: a copy of the tree below the first
/// child with that handle, or a fresh tree when there is none.
pub open spec fn advances(before: Seq<NodeView>, after: Seq<NodeView>, handle: u16) -> bool {
    &&& forall|p: int| #[trigger]
        first_edge(before[0].children, handle, p) ==> {
            let c = before[0].children[p].1 as int;
            tree_of(after, 0) == tree_of(before, c) && after == copied(before, c, 0)
        }
    &&& no_edge(before[0].children, handle) ==> after == fresh_tree()
}

impl Game {
    /// A game that starts from the given position.
    pub fn from_board(position: Position) -> (g: Self)
        requires
            position_wf(position),
        ensures
            game_wf(g),
            g.position == position,
            g.line@.len() == 0,
            nodes(g.arena@) == fresh_tree(),
            g.history@.len() == 0,
            !g.done,
            g.result == 0,
    {
        Game::at(position, Vec::new())
    }

    /// A game that is taken up at the end of a line, with nothing on record.
    pub fn at(position: Position, line: Vec<u16>) -> (g: Self)
        requires
            position_wf(position),
        ensures
            game_wf(g),
            g.position == position,
            g.line == line,
            nodes(g.arena@) == fresh_tree(),
            g.history@.len() == 0,
            !g.done,
            g.result == 0,
    {
        let mut arena: Vec<Node> = Vec::new();
        arena.push(Node::new(crate::ieee::ZERO, -1));
        assert(nodes(arena@) =~= fresh_tree());
        Game { position, line, arena, history: Vec::new(), done: false, result: 0 }
    }

    /// Sampling temperature of the next move.
    pub fn temperature<A: Arithmetic>(&self, arith: &A) -> (t: Real)
        ensures
            call_ensures(
                A::temper,
                (arith, anneal_steps(self.history@.len() as int) as usize),
                t,
            ),
    {
        arith.temper(steps_annealed(self.history.len()))
    }
}

/// Makes the tree below the played move the tree of the game; a move that was never
/// searched starts a fresh tree.
pub fn advance_subtree(g: &mut Game, handle: u16)
    requires
        arena_wf(nodes(old(g).arena@)),
    ensures
        advances(nodes(old(g).arena@), nodes(final(g).arena@), handle),
        arena_wf(nodes(final(g).arena@)),
        final(g).arena@.len() <= old(g).arena@.len(),
        forall|bound: int|
            bound >= 0 && visits_within(nodes(old(g).arena@), bound) ==> visits_within(
                nodes(final(g).arena@),
                bound,
            ),
        bushy(nodes(old(g).arena@)) ==> bushy(nodes(final(g).arena@)),
        final(g).position == old(g).position,
        final(g).line == old(g).line,
        final(g).history == old(g).history,
        final(g).done == old(g).done,
        final(g).result == old(g).result,
{
    let ghost a = nodes(g.arena@);
    let ghost edges = g.arena@[0].children@;
    let n: usize = g.arena[0].children.len();
    let mut j: usize = 0;
    while j < n
        invariant
            0 <= j <= n,
            n == edges.len(),
            g.arena@.len() > 0,
            g.arena@[0].children@ == edges,
            forall|k: int| 0 <= k < j ==> (#[trigger] edges[k]).0 != handle,
            *g == *old(g),
            a == nodes(g.arena@),
            arena_wf(a),
        decreases n - j,
    {
        let (h, c) = g.arena[0].children[j];
        if h == handle {
            assert(crate::tree::child(a, 0, j as int) == c);
            let mut new_arena: Vec<Node> = Vec::new();
            proof {
                subtree_fits_in_the_arena(a, c as int);
            }
            let at = copy_subtree(&g.arena, c as usize, &mut new_arena);
            proof {
                let b = nodes(new_arena@);
                assert(b =~= copied(a, c as int, 0));
                assert forall|p: int| #[trigger] first_edge(edges, handle, p) implies p == j by {
                    if p < j {
                        assert(edges[p].0 != handle);
                    }
                    if j < p {
                        assert(edges[j as int].0 != handle);
                    }
                }
                assert(!no_edge(edges, handle)) by {
                    assert(edges[j as int].0 == handle);
                }
                assert forall|bound: int| bound >= 0 && visits_within(
                    a,
                    bound,
                ) implies visits_within(b, bound) by {
                    assert forall|i: int| 0 <= i < b.len() implies (
                    #[trigger] b[i]).visit_count <= bound by {
                        let k = choose|k: int|
                            c <= k < a.len() && same_shape(new_arena@[i]@, #[trigger] a[k]);
                        assert(a[k].visit_count <= bound);
                    }
                }
                if bushy(a) {
                    assert forall|i: int| 0 <= i < b.len() && (
                    #[trigger] b[i]).expanded implies b[i].children.len() > 0 by {
                        let k = choose|k: int|
                            c <= k < a.len() && same_shape(new_arena@[i]@, #[trigger] a[k]);
                        assert(a[k].expanded);
                    }
                }
            }
            g.arena = new_arena;
            return ;
        }
        j += 1;
    }
    let mut fresh: Vec<Node> = Vec::new();
    fresh.push(Node::new(crate::ieee::ZERO, -1));
    assert(nodes(fresh@) =~= fresh_tree());
    proof {
        assert forall|p: int| #[trigger] first_edge(edges, handle, p) implies false by {
            assert(edges[p].0 != handle);
        }
    }
    g.arena = fresh;
}

/// Turns the record of a finished game into training rows, in order, each scored with the
/// result as the side to move saw it. The record is emptied.
pub fn finalize_rows(g: &mut Game) -> (rows: Vec<Row>)
    requires
        is_result(old(g).result as int),
    ensures
        rows@.len() == old(g).history@.len(),
        forall|k: int|
            0 <= k < rows@.len() ==> is_row(
                #[trigger] rows@[k],
                old(g).history@[k],
                old(g).result as int,
            ),
        (forall|k: int| 0 <= k < old(g).history@.len() ==> record_wf(#[trigger] old(g).history@[k]))
            ==> rows_wf(rows@),
        final(g).history@.len() == 0,
        final(g).position == old(g).position,
        final(g).line == old(g).line,
        final(g).arena == old(g).arena,
        final(g).done == old(g).done,
        final(g).result == old(g).result,
{
    let z_white = result_to_bits(g.result);
    let mut hist: Vec<Record> = Vec::new();
    std::mem::swap(&mut g.history, &mut hist);
    let ghost all = hist@;
    let mut rows: Vec<Row> = Vec::new();
    while hist.len() > 0
        invariant
            is_result(old(g).result as int),
            z_white == result_bits(old(g).result as int),
            rows@.len() + hist@.len() == all.len(),
            hist@ == all.skip(rows@.len() as int),
            forall|k: int|
                0 <= k < rows@.len() ==> is_row(#[trigger] rows@[k], all[k], old(g).result as int),
        decreases hist@.len(),
    {
        let Record { state, pi, turn } = hist.remove(0);
        let z = if turn {
            z_white
        } else {
            neg32(z_white)
        };
        rows.push(Row { state, pi, z });
        assert(hist@ =~= all.skip(rows@.len() as int));
    }
    proof {
        if forall|k: int| 0 <= k < all.len() ==> record_wf(#[trigger] all[k]) {
            assert forall|k: int| 0 <= k < rows@.len() implies row_wf(#[trigger] rows@[k]) by {
                assert(is_row(rows@[k], all[k], old(g).result as int));
                assert(record_wf(all[k]));
            }
        }
    }
    rows
}

/// The move `handle` was played and led to `next`: it is the last move of the line, the
/// decision is on record, the tree below the move is kept, and the game is over as soon as the
/// new position has an outcome or the record reached the ply cap, which counts as a draw.
pub open spec fn plays(
    before: Game,
    after: Game,
    pi: Vec<Real32>,
    handle: u16,
    next: Position,
) -> bool {
    &&& after.history@ == before.history@.push(
        Record { state: before.position.enc, pi, turn: before.position.white_to_move },
    )
    &&& after.line@ == before.line@.push(handle)
    &&& after.position == next
    &&& advances(nodes(before.arena@), nodes(after.arena@), handle)
    &&& after.done == (before.done || next.outcome is Some || after.history@.len() >= MAX_PLIES)
    &&& after.result == match next.outcome {
        Some(r) => r,
        None => if after.history@.len() >= MAX_PLIES {
            0
        } else {
            before.result
        },
    }
}

/// Records a decision and plays its move.
pub fn record_move(
    g: &mut Game,
    pi: Vec<Real32>,
    handle: u16,
    line: Vec<u16>,
    next: Position,
)
    requires
        game_wf(*old(g)),
        old(g).history@.len() < MAX_PLIES,
        pi@.len() == POLICY_SIZE,
        line@ == old(g).line@.push(handle),
        position_wf(next),
    ensures
        plays(*old(g), *final(g), pi, handle, next),
        final(g).line == line,
        game_wf(*final(g)),
        final(g).arena@.len() <= old(g).arena@.len(),
        forall|bound: int|
            bound >= 0 && visits_within(nodes(old(g).arena@), bound) ==> visits_within(
                nodes(final(g).arena@),
                bound,
            ),
        bushy(nodes(old(g).arena@)) ==> bushy(nodes(final(g).arena@)),
{
    let ghost g0 = *g;
    let mut position = next;
    std::mem::swap(&mut g.position, &mut position);
    let turn = position.white_to_move;
    g.history.push(Record { state: position.enc, pi, turn });
    assert forall|k: int| 0 <= k < g.history@.len() implies record_wf(#[trigger] g.history@[k]) by {
        if k < g0.history@.len() {
            assert(g.history@[k] == g0.history@[k]);
        }
    }
    g.line = line;
    advance_subtree(g, handle);
    match g.position.outcome {
        Some(r) => {
            g.result = r;
            g.done = true;
        },
        None => {
            if g.history.len() >= MAX_PLIES {
                g.result = 0;
                g.done = true;
            }
        },
    }
}

/// One self-play move led from `before` to `after`: the policy and the move come from the
/// visit counts at the root, and the table tells the position at the end of the longer line.
pub open spec fn moves_on<A: Arithmetic, T: Table>(
    before: Game,
    after: Game,
    arith: A,
    table: T,
    seat: u64,
) -> bool {
    exists|t: Real, pi: Vec<Real32>, handle: u16, next: Position|
        {
            &&& #[trigger] call_ensures(
                A::temper,
                (&arith, anneal_steps(before.history@.len() as int) as usize),
                t,
            )
            &&& is_policy(nodes(before.arena@), 0, t, arith, pi@)
            &&& is_sample(nodes(before.arena@), 0, t, table, seat, before.line, handle)
            &&& #[trigger] call_ensures(T::play, (&table, seat, &after.line), next)
            &&& #[trigger] plays(before, after, pi, handle, next)
        }
}

/// What a self-play move does. The temperature is asked for after no step below ply 20, after one
/// more step with each ply from there to ply 60, and after 40 steps from then on. Policy and move
/// come from the visit counts at the root, both at that temperature. The move lengthens the
/// line, and the table tells the position at its end. On record come the position before the
/// move, the policy and the side that was to move. The game is over exactly where the new
/// position has an outcome or 256 moves are on record; then the outcome is its result, or a
/// draw when there is none.
pub proof fn moves_sharpen_with_the_plies<A: Arithmetic, T: Table>(
    before: Game,
    after: Game,
    arith: A,
    table: T,
    seat: u64,
) -> (made: (Real, Vec<Real32>, u16))
    requires
        moves_on(before, after, arith, table, seat),
        !before.done,
    ensures
        ({
            let (t, pi, handle) = made;
            let plies = before.history@.len();
            let record = after.history@.last();
            &&& plies < 20 ==> call_ensures(A::temper, (&arith, 0usize), t)
            &&& 20 <= plies < 60 ==> call_ensures(A::temper, (&arith, (plies - 20) as usize), t)
            &&& plies >= 60 ==> call_ensures(A::temper, (&arith, 40usize), t)
            &&& is_policy(nodes(before.arena@), 0, t, arith, pi@)
            &&& is_sample(nodes(before.arena@), 0, t, table, seat, before.line, handle)
            &&& after.line@ == before.line@.push(handle)
            &&& call_ensures(T::play, (&table, seat, &after.line), after.position)
            &&& advances(nodes(before.arena@), nodes(after.arena@), handle)
            &&& after.history@.len() == plies + 1
            &&& after.history@.drop_last() == before.history@
            &&& record.state@ == before.position.enc@
            &&& record.pi@ == pi@
            &&& record.turn == before.position.white_to_move
            &&& after.done <==> after.position.outcome is Some || plies + 1 >= 256
            &&& after.position.outcome matches Some(r) ==> after.result == r
            &&& after.position.outcome is None && plies + 1 >= 256 ==> after.result == 0
        }),
{
    let (t, pi, handle, next) = choose|t: Real, pi: Vec<Real32>, handle: u16, next: Position|
        {
            &&& #[trigger] call_ensures(
                A::temper,
                (&arith, anneal_steps(before.history@.len() as int) as usize),
                t,
            )
            &&& is_policy(nodes(before.arena@), 0, t, arith, pi@)
            &&& is_sample(nodes(before.arena@), 0, t, table, seat, before.line, handle)
            &&& #[trigger] call_ensures(T::play, (&table, seat, &after.line), next)
            &&& #[trigger] plays(before, after, pi, handle, next)
        };
    assert(after.history@.drop_last() =~= before.history@);
    (t, pi, handle)
}

/// A training row holds the recorded position and policy. It is worth one to the side that was
/// to move when that side won, minus one when it lost, and zero or minus zero in a draw.
pub proof fn rows_are_worth_the_result(row: Row, rec: Record, result: int)
    requires
        is_row(row, rec, result),
    ensures
        row.state@ == rec.state@,
        row.pi@ == rec.pi@,
        result > 0 && rec.turn || result < 0 && !rec.turn ==> row.z == 0x3f80_0000,
        result > 0 && !rec.turn || result < 0 && rec.turn ==> row.z == 0xbf80_0000,
        result == 0 && rec.turn ==> row.z == 0,
        result == 0 && !rec.turn ==> row.z == 0x8000_0000,
{
}

/// What is kept of a tree when a move is played: the new root is the first child with the handle
/// of the move, with its prior, visits and value, and it has the children of that child, in order,
/// by the same handles and with the same priors, visits and values. A move without a child leaves
/// a root without children that was never visited.
pub proof fn played_moves_keep_their_tree(
    before: Seq<NodeView>,
    after: Seq<NodeView>,
    handle: u16,
    p: int,
)
    requires
        arena_wf(before),
        arena_wf(after),
        advances(before, after, handle),
        forall|k: int|
            0 <= k < p && k < before[0].children.len() ==> (#[trigger] before[0].children[k]).0
                != handle,
        0 <= p <= before[0].children.len(),
        p < before[0].children.len() ==> before[0].children[p].0 == handle,
    ensures
        p < before[0].children.len() ==> {
            let c = before[before[0].children[p].1 as int];
            let root = after[0];
            &&& root.prior == c.prior
            &&& root.visit_count == c.visit_count
            &&& root.value_sum == c.value_sum
            &&& root.expanded == c.expanded
            &&& root.noised == c.noised
            &&& root.move_index == c.move_index
            &&& root.children.len() == c.children.len()
            &&& forall|j: int|
                0 <= j < c.children.len() ==> {
                    &&& (#[trigger] root.children[j]).0 == c.children[j].0
                    &&& after[root.children[j].1 as int].prior
                        == before[c.children[j].1 as int].prior
                    &&& after[root.children[j].1 as int].visit_count
                        == before[c.children[j].1 as int].visit_count
                    &&& after[root.children[j].1 as int].value_sum
                        == before[c.children[j].1 as int].value_sum
                    &&& after[root.children[j].1 as int].move_index
                        == before[c.children[j].1 as int].move_index
                }
        },
        p == before[0].children.len() ==> {
            &&& after.len() == 1
            &&& after[0].visit_count == 0
            &&& after[0].children.len() == 0
            &&& !after[0].expanded
            &&& !after[0].noised
        },
{
    if p < before[0].children.len() {
        assert(first_edge(before[0].children, handle, p));
        let ci = before[0].children[p].1 as int;
        assert(crate::tree::child(before, 0, p) == ci);
        let c = before[ci];
        let root = after[0];
        let x = tree_of(after, 0);
        let y = tree_of(before, ci);
        assert(x == y);
        assert(x.children.len() == root.children.len());
        assert(y.children.len() == c.children.len());
        assert forall|j: int| 0 <= j < c.children.len() implies {
            &&& (#[trigger] root.children[j]).0 == c.children[j].0
            &&& tree_of(after, root.children[j].1 as int) == tree_of(
                before,
                c.children[j].1 as int,
            )
        } by {
            assert(x.children[j] == y.children[j]);
            assert(0 < crate::tree::child(after, 0, j) < after.len());
            assert(ci < crate::tree::child(before, ci, j) < before.len());
        }
        assert forall|j: int| 0 <= j < c.children.len() implies {
            &&& after[(#[trigger] root.children[j]).1 as int].prior
                == before[c.children[j].1 as int].prior
            &&& after[root.children[j].1 as int].visit_count
                == before[c.children[j].1 as int].visit_count
            &&& after[root.children[j].1 as int].value_sum
                == before[c.children[j].1 as int].value_sum
            &&& after[root.children[j].1 as int].move_index
                == before[c.children[j].1 as int].move_index
        } by {
            let s = tree_of(after, root.children[j].1 as int);
            let t = tree_of(before, c.children[j].1 as int);
            assert(s == t);
            assert(s.prior == after[root.children[j].1 as int].prior);
            assert(t.prior == before[c.children[j].1 as int].prior);
        }
    } else {
        assert(no_edge(before[0].children, handle));
    }
}

/// Plays one self-play move: records the position with the policy of the search, samples
/// a move from the visit counts, plays it, and keeps the tree below it.
pub fn step_move<A: Arithmetic, T: Table>(g: &mut Game, arith: &A, table: &T, seat: u64)
    requires
        game_wf(*old(g)),
        old(g).history@.len() < MAX_PLIES,
        old(g).arena@[0].children@.len() > 0,
        table_wf(*table),
    ensures
        moves_on(*old(g), *final(g), *arith, *table, seat),
        game_wf(*final(g)),
        final(g).arena@.len() <= old(g).arena@.len(),
        final(g).history@.len() == old(g).history@.len() + 1,
        !old(g).done ==> (final(g).done || is_live(*final(g))),
        forall|bound: int|
            bound >= 0 && visits_within(nodes(old(g).arena@), bound) ==> visits_within(
                nodes(final(g).arena@),
                bound,
            ),
        bushy(nodes(old(g).arena@)) ==> bushy(nodes(final(g).arena@)),
{
    let t = g.temperature(arith);
    let pi = visits_to_pi(&g.arena, 0, t, arith);
    let handle = sample_move(&g.arena, 0, t, table, seat, &g.line);
    let mut line = g.line.clone();
    line.push(handle);
    let next = table.play(seat, &line);
    let ghost place = next;
    assert(call_ensures(T::play, (table, seat, &line), place));
    record_move(g, pi, handle, line, next);
    assert(plays(*old(g), *g, pi, handle, next));
}

} // verus!

//! What a search does to the visit counts: every simulation counts once at the root of every
//! game that is being played.

use crate::arith::{softmax_fits, Arithmetic, Evaluator, Table};
use crate::batch::{
    bare_roots, expands_roots, gathers, gets_root, gets_root_noise, in_play, is_root_batch,
    leaf_gathered, lemma_bare_roots, lemma_in_play, noise_stage, reached, root_fits, root_stage,
    rows_before, scatters, searches, settles, sim_at, sim_stage, Leaf,
};
use crate::game::{game_wf, Game, Position};
use crate::ieee::{is_peak, Real, Real32};
use crate::policy::{child_visits, noises};
use crate::search::{
    ascending, ascending_paths_do_not_repeat, backs_up, backup_counts_visits, best_edge,
    descents_ascend, expanded_at, expands, expansion_keeps_the_tree, gathered, is_inner, new_edges,
    path_within, room_for, same_but_visits, scored, selects, steps_down, times, walks, Move,
};
use crate::tree::{arena_wf, bushy, child, fresh_node, nodes, visits_within, Node, NodeView};
use vstd::prelude::*;

verus! {

/// The visit counts of the nodes that were there are the same, and new nodes have none.
pub open spec fn visits_kept(before: Seq<NodeView>, after: Seq<NodeView>) -> bool {
    &&& after.len() >= before.len()
    &&& forall|i: int|
        0 <= i < before.len() ==> (#[trigger] after[i]).visit_count == before[i].visit_count
    &&& forall|i: int|
        before.len() <= i < after.len() ==> (#[trigger] after[i]).visit_count == 0
}

/// Generating moves visits nothing.
pub proof fn expansion_visits_nothing<A: Arithmetic>(
    before: Seq<NodeView>,
    after: Seq<NodeView>,
    n: int,
    legal: Seq<Move>,
    logits: Seq<Real32>,
    arith: A,
)
    requires
        expands(before, after, n, legal, logits, arith),
        0 <= n < before.len(),
    ensures
        visits_kept(before, after),
{
    if legal.len() == 0 {
        assert(visits_kept(before, expanded_at(before, n, legal, Seq::empty())));
    } else {
        let (row, priors) = choose|row: Vec<Real32>, priors: Vec<Real>| #[trigger]
            call_ensures(A::softmax, (&arith, &row), priors) && row@ == gathered(legal, logits)
                && after == expanded_at(before, n, legal, priors@);
        assert(visits_kept(before, expanded_at(before, n, legal, priors@)));
    }
}

pub proof fn lemma_kept_bound(before: Seq<NodeView>, after: Seq<NodeView>, bound: int)
    requires
        visits_kept(before, after),
        visits_within(before, bound),
        0 <= bound,
    ensures
        visits_within(after, bound),
{
    assert forall|i: int| 0 <= i < after.len() implies (#[trigger] after[i]).visit_count
        <= bound by {
        if i < before.len() {
            assert(before[i].visit_count <= bound);
        }
    }
}

/// Backing a value up from a leaf visits every node at most once, and the root once.
pub proof fn lemma_backup_counts<A: Arithmetic>(
    before: Seq<NodeView>,
    after: Seq<NodeView>,
    path: Seq<usize>,
    value: Real,
    arith: A,
    bound: int,
)
    requires
        backs_up(before, after, path, value, arith),
        path.len() > 0,
        path[0] == 0,
        ascending(path),
        path_within(path, before.len()),
        visits_within(before, bound),
        0 <= bound < u32::MAX,
    ensures
        after.len() == before.len(),
        visits_within(after, bound + 1),
        after[0].visit_count == before[0].visit_count + 1,
{
    assert(room_for(before, path)) by {
        assert forall|i: int| 0 <= i < before.len() implies (#[trigger] before[i]).visit_count
            + times(path, i) <= u32::MAX by {
            ascending_paths_do_not_repeat(path, i);
        }
    }
    backup_counts_visits(before, after, path, value, arith);
    assert forall|i: int| 0 <= i < after.len() implies (#[trigger] after[i]).visit_count <= bound
        + 1 by {
        assert(before[i].visit_count <= bound);
        ascending_paths_do_not_repeat(path, i);
    }
    ascending_paths_do_not_repeat(path, 0);
    assert(path.contains(0usize));
    assert(before[0].visit_count <= bound);
    assert(after[0].visit_count == before[0].visit_count + times(path, 0));
}

/// The first `n` numbers together.
pub open spec fn total(xs: Seq<u32>, n: nat) -> int
    decreases n,
{
    if n == 0 {
        0
    } else {
        total(xs, (n - 1) as nat) + xs[n - 1]
    }
}

/// The visits of the children of the root together.
pub open spec fn child_sum(a: Seq<NodeView>) -> int {
    total(child_visits(a, 0), a[0].children.len())
}

proof fn lemma_total_grows(xs: Seq<u32>, ys: Seq<u32>, p: int, n: nat)
    requires
        0 <= p,
        forall|j: int| 0 <= j < n ==> #[trigger] ys[j] == xs[j] + (if j == p {
            1int
        } else {
            0
        }),
    ensures
        total(ys, n) == total(xs, n) + (if p < n {
            1int
        } else {
            0
        }),
    decreases n,
{
    if n > 0 {
        lemma_total_grows(xs, ys, p, (n - 1) as nat);
        assert(ys[n - 1] == xs[n - 1] + (if n - 1 == p {
            1int
        } else {
            0
        }));
    }
}

proof fn lemma_total_zero(xs: Seq<u32>, n: nat)
    requires
        forall|j: int| 0 <= j < n ==> #[trigger] xs[j] == 0,
    ensures
        total(xs, n) == 0,
    decreases n,
{
    if n > 0 {
        lemma_total_zero(xs, (n - 1) as nat);
    }
}

/// A way down from a root with children passes through one of them, and through no other.
proof fn lemma_one_child_on_the_way<A: Arithmetic>(
    arena: Seq<Node>,
    arith: A,
    path: Seq<usize>,
    handles: Seq<u16>,
) -> (p: int)
    requires
        arena_wf(nodes(arena)),
        walks(arena, arith, path, handles),
        is_inner(nodes(arena)[0]),
    ensures
        path.last() != 0,
        0 <= p < nodes(arena)[0].children.len(),
        forall|j: int|
            0 <= j < nodes(arena)[0].children.len() ==> times(
                path,
                #[trigger] child(nodes(arena), 0, j),
            ) == (if j == p {
                1nat
            } else {
                0
            }),
{
    let a = nodes(arena);
    assert(a[0] == arena[0]@);
    descents_ascend(arena, arith, path, handles);
    if path.len() == 1 {
        assert(path.last() == 0);
    }
    assert(path[0] < path[path.len() - 1]);
    assert(steps_down(arena, arith, path, handles, 0));
    let p = lemma_selected(arena, 0, arith, (handles[0], path[1]));
    assert(child(a, 0, p) == path[1]);
    assert forall|j: int| 0 <= j < a[0].children.len() implies times(
        path,
        #[trigger] child(a, 0, j),
    ) == (if j == p {
        1nat
    } else {
        0
    }) by {
        let c = child(a, 0, j);
        ascending_paths_do_not_repeat(path, c);
        if j == p {
            assert(path[1] == c as usize);
        } else if path.contains(c as usize) {
            let m = choose|m: int| 0 <= m < path.len() && path[m] == c as usize;
            assert(0 < c < a.len());
            if m == 0 {
                assert(path[0] == 0);
            } else if m == 1 {
                assert(child(a, 0, j) == child(a, 0, p));
            } else {
                assert(steps_down(arena, arith, path, handles, m - 1));
                let n = path[m - 1] as int;
                assert(path[0] < path[m - 1]);
                let q = lemma_selected(arena, n, arith, (handles[m - 1], path[m]));
                assert(a[n] == arena[n]@);
                assert(child(a, n, q) == child(a, 0, j));
            }
        }
    }
    p
}

/// A selected child is a child.
proof fn lemma_selected<A: Arithmetic>(
    arena: Seq<Node>,
    n: int,
    arith: A,
    choice: (u16, usize),
) -> (p: int)
    requires
        0 <= n < arena.len(),
        selects(arena, n, arith, Some(choice)),
    ensures
        0 <= p < nodes(arena)[n].children.len(),
        child(nodes(arena), n, p) == choice.1,
{
    assert(nodes(arena)[n] == arena[n]@);
    let scores = choose|scores: Seq<Real>| #[trigger]
        scored(arena, n, arith, scores) && best_edge(arena[n].children@, scores, Some(choice));
    choose|p: int|
        #[trigger] is_peak(scores, p) && arena[n].children@[p].0 == choice.0
            && arena[n].children@[p].1 == choice.1
}

/// A simulation below a root with children counts once among the children.
proof fn lemma_children_count_once<A: Arithmetic>(
    arena: Seq<Node>,
    mid: Seq<NodeView>,
    after: Seq<NodeView>,
    path: Seq<usize>,
    handles: Seq<u16>,
    value: Real,
    arith: A,
)
    requires
        arena_wf(nodes(arena)),
        walks(arena, arith, path, handles),
        is_inner(nodes(arena)[0]),
        visits_kept(nodes(arena), mid),
        mid[0] == nodes(arena)[0],
        backs_up(mid, after, path, value, arith),
        visits_within(mid, u32::MAX - 1),
    ensures
        after[0].children == nodes(arena)[0].children,
        is_inner(after[0]),
        child_sum(after) == child_sum(nodes(arena)) + 1,
{
    let a = nodes(arena);
    let p = lemma_one_child_on_the_way(arena, arith, path, handles);
    descents_ascend(arena, arith, path, handles);
    assert(path_within(path, mid.len())) by {
        assert forall|k: int| 0 <= k < path.len() implies (#[trigger] path[k]) < mid.len() by {
            assert(path[k] < arena.len());
        }
    }
    assert forall|i: int| 0 <= i < mid.len() implies (#[trigger] mid[i]).visit_count + times(
        path,
        i,
    ) <= u32::MAX by {
        ascending_paths_do_not_repeat(path, i);
    }
    backup_counts_visits(mid, after, path, value, arith);
    assert(same_but_visits(after[0], mid[0]));
    let xs = child_visits(a, 0);
    let ys = child_visits(after, 0);
    assert forall|j: int| 0 <= j < a[0].children.len() implies #[trigger] ys[j] == xs[j] + (
    if j == p {
        1int
    } else {
        0
    }) by {
        let c = child(a, 0, j);
        assert(0 < c < a.len());
        assert(child(after, 0, j) == c);
        assert(mid[c].visit_count == a[c].visit_count);
        assert(after[c].visit_count == mid[c].visit_count + times(path, c));
    }
    lemma_total_grows(xs, ys, p, a[0].children.len());
}

/// A simulation of a game counts once at its root.
pub proof fn simulations_count_once<A: Arithmetic, T: Table>(
    before: Game,
    after: Game,
    leaf: Leaf,
    at: Position,
    logits: Seq<Real32>,
    values: Seq<Real>,
    arith: A,
    table: T,
    seat: u64,
    bound: int,
)
    requires
        reached(before, leaf, at, arith, table, seat),
        settles(before, after, leaf, logits, values, arith),
        visits_within(nodes(before.arena@), bound),
        0 <= bound < u32::MAX,
    ensures
        after.arena@[0].visit_count == before.arena@[0].visit_count + 1,
        after.arena@.len() >= before.arena@.len() > 0,
        visits_within(nodes(after.arena@), bound + 1),
        after.done == before.done,
        arena_wf(nodes(before.arena@)) && is_inner(nodes(before.arena@)[0]) ==> {
            &&& is_inner(nodes(after.arena@)[0])
            &&& child_sum(nodes(after.arena@)) == child_sum(nodes(before.arena@)) + 1
        },
{
    let a = nodes(before.arena@);
    let b = nodes(after.arena@);
    let path = leaf.path@;
    let handles = choose|handles: Vec<u16>|
        walks(before.arena@, arith, path, handles@) && #[trigger] call_ensures(
            T::look,
            (&table, seat, &before.line, &handles),
            at,
        );
    descents_ascend(before.arena@, arith, path, handles@);
    assert(path[0] < before.arena@.len());
    assert(path_within(path, a.len()));
    match leaf.eval_row {
        None => {
            lemma_backup_counts(a, b, path, leaf.terminal->0, arith, bound);
            if arena_wf(a) && is_inner(a[0]) {
                lemma_wider_visits(a, bound);
                lemma_children_count_once(
                    before.arena@,
                    a,
                    b,
                    path,
                    handles@,
                    leaf.terminal->0,
                    arith,
                );
            }
        },
        Some(r) => {
            let row = crate::batch::policy_row(logits, r as int);
            let mid = choose|mid: Seq<NodeView>| #[trigger]
                expands(a, mid, path.last() as int, leaf.legal@, row, arith) && backs_up(
                    mid,
                    b,
                    path,
                    values[r as int],
                    arith,
                );
            expansion_visits_nothing(a, mid, path.last() as int, leaf.legal@, row, arith);
            lemma_kept_bound(a, mid, bound);
            assert(path_within(path, mid.len()));
            lemma_backup_counts(mid, b, path, values[r as int], arith, bound);
            assert(mid[0].visit_count == a[0].visit_count);
            if arena_wf(a) && is_inner(a[0]) {
                lemma_one_child_on_the_way(before.arena@, arith, path, handles@);
                lemma_expansion_elsewhere(
                    a,
                    mid,
                    path.last() as int,
                    leaf.legal@,
                    row,
                    arith,
                );
                lemma_wider_visits(mid, bound);
                lemma_children_count_once(
                    before.arena@,
                    mid,
                    b,
                    path,
                    handles@,
                    values[r as int],
                    arith,
                );
            }
        },
    }
    assert(b[0] == after.arena@[0]@);
    assert(a[0] == before.arena@[0]@);
}

proof fn lemma_wider_visits(a: Seq<NodeView>, bound: int)
    requires
        visits_within(a, bound),
        bound < u32::MAX,
    ensures
        visits_within(a, u32::MAX - 1),
{
    assert forall|i: int| 0 <= i < a.len() implies (#[trigger] a[i]).visit_count <= u32::MAX - 1 by {
        assert(a[i].visit_count <= bound);
    }
}

/// Generating the moves of another node leaves the root alone.
proof fn lemma_expansion_elsewhere<A: Arithmetic>(
    before: Seq<NodeView>,
    after: Seq<NodeView>,
    n: int,
    legal: Seq<Move>,
    logits: Seq<Real32>,
    arith: A,
)
    requires
        expands(before, after, n, legal, logits, arith),
        0 < n < before.len(),
    ensures
        after[0] == before[0],
{
    if legal.len() > 0 {
        let (row, priors) = choose|row: Vec<Real32>, priors: Vec<Real>| #[trigger]
            call_ensures(A::softmax, (&arith, &row), priors) && row@ == gathered(legal, logits)
                && after == expanded_at(before, n, legal, priors@);
        assert(after[0] == before[0]);
    }
}

/// A simulation of a batch counts once at the root of every game that is being played.
pub proof fn lemma_batch_counts<A: Arithmetic, T: Table>(
    before: Seq<Game>,
    after: Seq<Game>,
    seats: Seq<u64>,
    leaves: Seq<Leaf>,
    enc: Seq<Real32>,
    rows: int,
    logits: Seq<Real32>,
    values: Seq<Real>,
    i: int,
    arith: A,
    table: T,
    bound: int,
)
    requires
        gathers(before, seats, leaves, enc, rows, arith, table),
        scatters(before, after, leaves, logits, values, arith),
        0 <= i < before.len() <= usize::MAX,
        visits_within(nodes(before[i].arena@), bound),
        0 <= bound < u32::MAX,
        !before[i].done,
    ensures
        after.len() == before.len(),
        !after[i].done,
        after[i].arena@.len() > 0,
        after[i].arena@[0].visit_count == before[i].arena@[0].visit_count + 1,
        visits_within(nodes(after[i].arena@), bound + 1),
        game_wf(before[i]) && is_inner(nodes(before[i].arena@)[0]) ==> {
            &&& is_inner(nodes(after[i].arena@)[0])
            &&& child_sum(nodes(after[i].arena@)) == child_sum(nodes(before[i].arena@)) + 1
        },
{
    let playing = in_play(before, before.len());
    lemma_in_play(before, before.len());
    assert(playing.contains(i as usize));
    let k = choose|k: int| 0 <= k < playing.len() && playing[k] == i as usize;
    let leaf = leaves[k];
    assert(leaf.game == i);
    assert(leaf_gathered(before, seats, leaves, enc, k, arith, table));
    let r = rows_before(leaves, k as nat);
    let at = choose|at: Position| #[trigger]
        reached(before[i], leaf, at, arith, table, seats[i]) && if at.terminal is Some {
            leaf.eval_row is None
        } else {
            leaf.eval_row == Some(r as usize) && crate::buckets::row_of(enc, r as int) == at.enc@
        };
    assert(settles(before[i], after[i], leaf, logits, values, arith));
    simulations_count_once(
        before[i],
        after[i],
        leaf,
        at,
        logits,
        values,
        arith,
        table,
        seats[i],
        bound,
    );
}

proof fn lemma_stage_counts<A: Arithmetic, T: Table, E: Evaluator>(
    before: Seq<Game>,
    after: Seq<Game>,
    seats: Seq<u64>,
    i: int,
    arith: A,
    table: T,
    net: E,
    bound: int,
)
    requires
        sim_stage(before, after, seats, arith, table, net),
        0 <= i < before.len() <= usize::MAX,
        visits_within(nodes(before[i].arena@), bound),
        0 <= bound < u32::MAX,
        !before[i].done,
    ensures
        after.len() == before.len(),
        !after[i].done,
        after[i].arena@[0].visit_count == before[i].arena@[0].visit_count + 1,
        visits_within(nodes(after[i].arena@), bound + 1),
        is_inner(nodes(before[i].arena@)[0]) ==> {
            &&& is_inner(nodes(after[i].arena@)[0])
            &&& child_sum(nodes(after[i].arena@)) == child_sum(nodes(before[i].arena@)) + 1
        },
{
    assert(game_wf(before[i]));
    let (leaves, enc, rows, out) = choose|
        leaves: Seq<Leaf>,
        enc: Vec<Real32>,
        rows: usize,
        out: (Vec<Real32>, Vec<Real>),
    |
        {
            &&& #[trigger] gathers(before, seats, leaves, enc@, rows as int, arith, table)
            &&& rows > 0 ==> call_ensures(E::eval, (&net, &enc, rows), out)
            &&& #[trigger] scatters(before, after, leaves, out.0@, out.1@, arith)
        };
    lemma_batch_counts(
        before,
        after,
        seats,
        leaves,
        enc@,
        rows as int,
        out.0@,
        out.1@,
        i,
        arith,
        table,
        bound,
    );
}

proof fn lemma_states_count<A: Arithmetic, T: Table, E: Evaluator>(
    states: Seq<Seq<Game>>,
    n: int,
    seats: Seq<u64>,
    i: int,
    arith: A,
    table: T,
    net: E,
    bound: int,
)
    requires
        0 <= n < states.len(),
        forall|k: int| 0 <= k < n ==> #[trigger] sim_at(states, k, seats, arith, table, net),
        0 <= i < states[0].len() <= usize::MAX,
        visits_within(nodes(states[0][i].arena@), bound),
        0 <= bound,
        bound + n <= u32::MAX,
        !states[0][i].done,
    ensures
        states[n].len() == states[0].len(),
        !states[n][i].done,
        states[n][i].arena@[0].visit_count == states[0][i].arena@[0].visit_count + n,
        visits_within(nodes(states[n][i].arena@), bound + n),
        is_inner(nodes(states[0][i].arena@)[0]) ==> {
            &&& is_inner(nodes(states[n][i].arena@)[0])
            &&& child_sum(nodes(states[n][i].arena@)) == child_sum(nodes(states[0][i].arena@)) + n
        },
    decreases n,
{
    if n > 0 {
        lemma_states_count(states, n - 1, seats, i, arith, table, net, bound);
        assert(sim_at(states, n - 1, seats, arith, table, net));
        lemma_stage_counts(
            states[n - 1],
            states[n],
            seats,
            i,
            arith,
            table,
            net,
            bound + n - 1,
        );
    }
}

/// Generating the moves at the roots visits nothing.
pub proof fn lemma_roots_count_nothing<A: Arithmetic>(
    before: Seq<Game>,
    after: Seq<Game>,
    need: Seq<usize>,
    logits: Seq<Real32>,
    i: int,
    arith: A,
)
    requires
        expands_roots(before, after, need, logits, arith),
        0 <= i < before.len() <= usize::MAX,
        before[i].arena@.len() > 0,
    ensures
        after.len() == before.len(),
        after[i].done == before[i].done,
        visits_kept(nodes(before[i].arena@), nodes(after[i].arena@)),
{
    if need.contains(i as usize) {
        let k = choose|k: int| 0 <= k < need.len() && need[k] == i as usize;
        assert(gets_root(before[need[k] as int], after[need[k] as int], logits, k, arith));
        expansion_visits_nothing(
            nodes(before[i].arena@),
            nodes(after[i].arena@),
            0,
            before[i].position.legal@,
            crate::batch::policy_row(logits, k),
            arith,
        );
    }
}

/// Noise at the roots visits nothing.
pub proof fn lemma_noise_counts_nothing<A: Arithmetic, T: Table>(
    before: Seq<Game>,
    after: Seq<Game>,
    seats: Seq<u64>,
    wanted: bool,
    i: int,
    arith: A,
    table: T,
)
    requires
        noise_stage(before, after, seats, wanted, arith, table),
        0 <= i < before.len(),
        before[i].arena@.len() > 0,
    ensures
        after.len() == before.len(),
        after[i].done == before[i].done,
        visits_kept(nodes(before[i].arena@), nodes(after[i].arena@)),
{
    if wanted {
        assert(gets_root_noise(before[i], after[i], arith, table, seats[i]));
        if !before[i].done && before[i].arena@[0].expanded {
            let b = nodes(before[i].arena@);
            let c = nodes(after[i].arena@);
            let drawn = choose|drawn: Seq<Real>| #[trigger]
                noises(b, c, 0, drawn, arith) && crate::policy::is_noise(
                    crate::policy::noise_needed(b[0]),
                    table,
                    seats[i],
                    before[i].line,
                    drawn,
                );
            assert(noises(b, c, 0, drawn, arith));
        }
    }
}

proof fn lemma_root_stage_counts<A: Arithmetic, E: Evaluator>(
    before: Seq<Game>,
    after: Seq<Game>,
    i: int,
    arith: A,
    net: E,
)
    requires
        root_stage(before, after, arith, net),
        0 <= i < before.len() <= usize::MAX,
        before[i].arena@.len() > 0,
    ensures
        after.len() == before.len(),
        after[i].done == before[i].done,
        visits_kept(nodes(before[i].arena@), nodes(after[i].arena@)),
{
    let need = bare_roots(before, before.len());
    lemma_bare_roots(before, before.len());
    if need.len() > 0 {
        let (enc, out) = choose|enc: Vec<Real32>, out: (Vec<Real32>, Vec<Real>)| #[trigger]
            call_ensures(E::eval, (&net, &enc, need.len() as usize), out) && is_root_batch(
                before,
                need,
                enc@,
            ) && expands_roots(before, after, need, out.0@, arith);
        lemma_roots_count_nothing(before, after, need, out.0@, i, arith);
    }
}

/// A search with `n` simulations counts `n` visits at the root of every game that is being
/// played, whatever it finds there. Where play goes on, it counts as many among the children of
/// the root together.
pub proof fn roots_count_simulations<A: Arithmetic, T: Table, E: Evaluator>(
    before: Seq<Game>,
    after: Seq<Game>,
    seats: Seq<u64>,
    n: int,
    noise: bool,
    i: int,
    arith: A,
    table: T,
    net: E,
)
    requires
        searches(before, after, seats, n, noise, arith, table, net),
        0 <= n,
        0 <= i < before.len() <= usize::MAX,
        !before[i].done,
        before[i].arena@.len() > 0,
        n <= u32::MAX,
        visits_within(nodes(before[i].arena@), u32::MAX - n),
    ensures
        after[i].arena@[0].visit_count == before[i].arena@[0].visit_count + n,
        game_wf(before[i]) && bushy(nodes(before[i].arena@)) && before[i].position.outcome is None
            && root_fits(before, i) && softmax_fits(arith) ==> child_sum(nodes(after[i].arena@)) == child_sum(
            nodes(before[i].arena@),
        ) + n,
{
    let bound = u32::MAX - n;
    let (mid, states) = choose|mid: Seq<Game>, states: Seq<Seq<Game>>|
        {
            &&& #[trigger] root_stage(before, mid, arith, net)
            &&& #[trigger] noise_stage(mid, states[0], seats, noise, arith, table)
            &&& states.len() == n + 1
            &&& states[n] == after
            &&& forall|k: int|
                0 <= k < n ==> #[trigger] sim_at(states, k, seats, arith, table, net)
        };
    lemma_root_stage_counts(before, mid, i, arith, net);
    let a = nodes(before[i].arena@);
    let b = nodes(mid[i].arena@);
    let c = nodes(states[0][i].arena@);
    lemma_kept_bound(a, b, bound);
    lemma_noise_counts_nothing(mid, states[0], seats, noise, i, arith, table);
    lemma_kept_bound(b, c, bound);
    lemma_states_count(states, n, seats, i, arith, table, net, bound);
    assert(a[0] == before[i].arena@[0]@);
    assert(b[0].visit_count == a[0].visit_count);
    assert(c[0].visit_count == b[0].visit_count);
    assert(c[0] == states[0][i].arena@[0]@);
    if game_wf(before[i]) && bushy(a) && before[i].position.outcome is None && root_fits(before, i)
        && softmax_fits(arith) {
        lemma_root_has_children(before, mid, i, arith, net);
        lemma_noise_keeps_the_sum(b, c, noise, mid[i], states[0][i], arith, table, seats[i]);
    }
}

/// After the root stage the root has children, which have the visits that they had.
proof fn lemma_root_has_children<A: Arithmetic, E: Evaluator>(
    before: Seq<Game>,
    after: Seq<Game>,
    i: int,
    arith: A,
    net: E,
)
    requires
        root_stage(before, after, arith, net),
        0 <= i < before.len() <= usize::MAX,
        !before[i].done,
        game_wf(before[i]),
        bushy(nodes(before[i].arena@)),
        before[i].position.outcome is None,
        root_fits(before, i),
        softmax_fits(arith),
    ensures
        is_inner(nodes(after[i].arena@)[0]),
        child_sum(nodes(after[i].arena@)) == child_sum(nodes(before[i].arena@)),
        arena_wf(nodes(after[i].arena@)),
{
    let a = nodes(before[i].arena@);
    let b = nodes(after[i].arena@);
    let need = bare_roots(before, before.len());
    lemma_bare_roots(before, before.len());
    assert(a[0] == before[i].arena@[0]@);
    if !a[0].expanded {
        assert(a[0].children.len() == 0);
        assert(need.contains(i as usize));
        let (enc, out) = choose|enc: Vec<Real32>, out: (Vec<Real32>, Vec<Real>)| #[trigger]
            call_ensures(E::eval, (&net, &enc, need.len() as usize), out) && is_root_batch(
                before,
                need,
                enc@,
            ) && expands_roots(before, after, need, out.0@, arith);
        let k = choose|k: int| 0 <= k < need.len() && need[k] == i as usize;
        assert(gets_root(before[need[k] as int], after[need[k] as int], out.0@, k, arith));
        let legal = before[i].position.legal@;
        let logits = crate::batch::policy_row(out.0@, k);
        let (row, priors) = choose|row: Vec<Real32>, priors: Vec<Real>| #[trigger]
            call_ensures(A::softmax, (&arith, &row), priors) && row@ == gathered(legal, logits)
                && b == expanded_at(a, 0, legal, priors@);
        assert(priors@.len() == legal.len());
        assert(b[0].children =~= new_edges(a.len(), legal, priors@));
        let ys = child_visits(b, 0);
        assert forall|j: int| 0 <= j < b[0].children.len() implies #[trigger] ys[j] == 0 by {
            assert(child(b, 0, j) == a.len() + j);
            assert(b[a.len() + j] == fresh_node(priors@[j], legal[j].1));
        }
        lemma_total_zero(ys, b[0].children.len());
        expansion_keeps_the_tree(a, 0, legal, priors@);
        assert(total(child_visits(a, 0), 0) == 0);
    } else {
        if need.len() > 0 && need.contains(i as usize) {
            let k = choose|k: int| 0 <= k < need.len() && need[k] == i as usize;
            assert(!before[need[k] as int].arena@[0].expanded);
        }
        assert(after[i] == before[i]);
    }
}

/// Noise changes neither the children of the root nor their visits.
proof fn lemma_noise_keeps_the_sum<A: Arithmetic, T: Table>(
    before: Seq<NodeView>,
    after: Seq<NodeView>,
    noise: bool,
    g: Game,
    h: Game,
    arith: A,
    table: T,
    seat: u64,
)
    requires
        before == nodes(g.arena@),
        after == nodes(h.arena@),
        if noise {
            gets_root_noise(g, h, arith, table, seat)
        } else {
            h == g
        },
        is_inner(before[0]),
        before.len() > 0,
        visits_kept(before, after),
        forall|j: int|
            0 <= j < before[0].children.len() ==> 0 <= #[trigger] child(before, 0, j)
                < before.len(),
    ensures
        is_inner(after[0]),
        child_sum(after) == child_sum(before),
{
    if noise && !g.done && g.arena@[0].expanded {
        let drawn = choose|drawn: Seq<Real>| #[trigger]
            noises(before, after, 0, drawn, arith) && crate::policy::is_noise(
                crate::policy::noise_needed(before[0]),
                table,
                seat,
                g.line,
                drawn,
            );
        assert(noises(before, after, 0, drawn, arith));
        assert(after[0].children == before[0].children && after[0].expanded == before[0].expanded);
    }
    assert(child_visits(after, 0) =~= child_visits(before, 0)) by {
        assert forall|j: int| 0 <= j < before[0].children.len() implies child_visits(after, 0)[j]
            == child_visits(before, 0)[j] by {
            let c = child(before, 0, j);
            assert(child(after, 0, j) == c);
            assert(after[c].visit_count == before[c].visit_count);
        }
    }
}

} // verus!

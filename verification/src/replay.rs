//! The same game again: where the same question always gets the same answer, a game that is
//! searched and played twice goes the same way both times, whatever other games it shares its
//! batches and its worker with.

use crate::arith::{Arithmetic, Evaluator, Table};
use crate::batch::{
    games_do_not_mix, gets_root_noise, judges_rows, reached, roots_alone, same_but_tree, searches,
    searches_alone, sims_alone, sims_alone_at, Judge, Leaf,
};
use crate::engine::is_new_game;
use crate::game::{
    anneal_steps, first_edge, game_wf, is_row, moves_on, plays, Game, Position, Record, Row,
};
use crate::ieee::{is_peak, is_zero, peak_is_unique, Real, Real32, ONE32};
use crate::inflight::rows_of;
use crate::policy::{
    among_children, child_indices, child_visits, is_first_max, is_noise, is_pick, is_policy,
    is_sample, no_policy, noise_count, noise_needed, noise_step, noises, policy_of, NoiseDraw,
};
use crate::search::{
    backs_up, best_edge, expanded_at, expands, gathered, parent_visits, scored, selects,
    steps_down, visited, walks, Move,
};
use crate::seeds::seed_of_slot;
use crate::shards::{
    ends_of, path_of, seat_of, shard_run, shares_stay_well_formed, slot_round, slot_round_at,
    slot_run, slot_steps, slots_go_their_own_way, FinishedGame, RunConfig, Shard, Slot,
};
use crate::tree::{arena_wf, child, nodes, Node, NodeView};
use vstd::prelude::*;

verus! {

// --- the same answers --------------------------------------------------------

/// What is read of the two positions is the same.
pub open spec fn alike(p: Position, q: Position) -> bool {
    &&& p.legal@ == q.legal@
    &&& p.enc@ == q.enc@
    &&& p.white_to_move == q.white_to_move
    &&& p.outcome == q.outcome
    &&& p.terminal == q.terminal
}

/// The shares, if there are any, as a mathematical value.
pub open spec fn shares_view(shares: Option<Vec<Real32>>) -> Option<Seq<Real32>> {
    match shares {
        Some(s) => Some(s@),
        None => None,
    }
}

/// The arithmetic gives the same answer to the same question every time.
pub open spec fn arith_repeats<A: Arithmetic>(arith: A) -> bool {
    &&& forall|v: u32, c: &Node, d: &Node, x: Real, y: Real|
        #![trigger call_ensures(A::score, (&arith, v, c), x), call_ensures(A::score, (&arith, v, d), y)]
        c@ == d@ && call_ensures(A::score, (&arith, v, c), x) && call_ensures(
            A::score,
            (&arith, v, d),
            y,
        ) ==> x == y
    &&& forall|r: &Vec<Real32>, s: &Vec<Real32>, x: Vec<Real>, y: Vec<Real>|
        #![trigger call_ensures(A::softmax, (&arith, r), x), call_ensures(A::softmax, (&arith, s), y)]
        r@ == s@ && call_ensures(A::softmax, (&arith, r), x) && call_ensures(
            A::softmax,
            (&arith, s),
            y,
        ) ==> x@ == y@
    &&& forall|s: Real, v: Real, x: Real, y: Real|
        #![trigger call_ensures(A::plus, (&arith, s, v), x), call_ensures(A::plus, (&arith, s, v), y)]
        call_ensures(A::plus, (&arith, s, v), x) && call_ensures(A::plus, (&arith, s, v), y) ==> x
            == y
    &&& forall|p: Real, n: Real, x: Real, y: Real|
        #![trigger call_ensures(A::mix, (&arith, p, n), x), call_ensures(A::mix, (&arith, p, n), y)]
        call_ensures(A::mix, (&arith, p, n), x) && call_ensures(A::mix, (&arith, p, n), y) ==> x
            == y
    &&& forall|k: usize, x: Real, y: Real|
        #![trigger call_ensures(A::temper, (&arith, k), x), call_ensures(A::temper, (&arith, k), y)]
        call_ensures(A::temper, (&arith, k), x) && call_ensures(A::temper, (&arith, k), y) ==> x
            == y
    &&& forall|c: &Vec<u32>, d: &Vec<u32>, t: Real, x: Option<Vec<Real32>>, y: Option<Vec<Real32>>|
        #![trigger call_ensures(A::shares, (&arith, c, t), x), call_ensures(A::shares, (&arith, d, t), y)]
        c@ == d@ && call_ensures(A::shares, (&arith, c, t), x) && call_ensures(
            A::shares,
            (&arith, d, t),
            y,
        ) ==> shares_view(x) == shares_view(y)
}

/// The table gives the same answer to the same question every time: the question tells the
/// game and its line, so the random numbers of a game may differ from one moment to the next.
pub open spec fn table_repeats<T: Table>(table: T) -> bool {
    &&& forall|seat: u64, seed: Option<u64>, p: Position, q: Position|
        #![trigger call_ensures(T::start, (&table, seat, seed), p), call_ensures(T::start, (&table, seat, seed), q)]
        call_ensures(T::start, (&table, seat, seed), p) && call_ensures(
            T::start,
            (&table, seat, seed),
            q,
        ) ==> alike(p, q)
    &&& forall|
        seat: u64,
        l: &Vec<u16>,
        m: &Vec<u16>,
        h: &Vec<u16>,
        i: &Vec<u16>,
        p: Position,
        q: Position,
    |
        #![trigger call_ensures(T::look, (&table, seat, l, h), p), call_ensures(T::look, (&table, seat, m, i), q)]
        l@ == m@ && h@ == i@ && call_ensures(T::look, (&table, seat, l, h), p) && call_ensures(
            T::look,
            (&table, seat, m, i),
            q,
        ) ==> alike(p, q)
    &&& forall|seat: u64, l: &Vec<u16>, m: &Vec<u16>, p: Position, q: Position|
        #![trigger call_ensures(T::play, (&table, seat, l), p), call_ensures(T::play, (&table, seat, m), q)]
        l@ == m@ && call_ensures(T::play, (&table, seat, l), p) && call_ensures(
            T::play,
            (&table, seat, m),
            q,
        ) ==> alike(p, q)
    &&& forall|seat: u64, l: &Vec<u16>, m: &Vec<u16>, n: usize, v: Vec<Real>, w: Vec<Real>|
        #![trigger call_ensures(T::noise, (&table, seat, l, n), v), call_ensures(T::noise, (&table, seat, m, n), w)]
        l@ == m@ && call_ensures(T::noise, (&table, seat, l, n), v) && call_ensures(
            T::noise,
            (&table, seat, m, n),
            w,
        ) ==> v@ == w@
    &&& forall|
        seat: u64,
        l: &Vec<u16>,
        m: &Vec<u16>,
        c: &Vec<u32>,
        d: &Vec<u32>,
        t: Real,
        v: (Real, Vec<Real>),
        w: (Real, Vec<Real>),
    |
        #![trigger call_ensures(T::draw, (&table, seat, l, c, t), v), call_ensures(T::draw, (&table, seat, m, d, t), w)]
        l@ == m@ && c@ == d@ && call_ensures(T::draw, (&table, seat, l, c, t), v) && call_ensures(
            T::draw,
            (&table, seat, m, d, t),
            w,
        ) ==> v.0 == w.0 && v.1@ == w.1@
}

/// What the two records hold is the same.
pub open spec fn same_record(r: Record, s: Record) -> bool {
    r.state@ == s.state@ && r.pi@ == s.pi@ && r.turn == s.turn
}

/// What the two rows hold is the same.
pub open spec fn same_row(r: Row, s: Row) -> bool {
    r.state@ == s.state@ && r.pi@ == s.pi@ && r.z == s.z
}

/// The two games stand at the same point, with the same tree, record and result.
pub open spec fn same_state(g: Game, h: Game) -> bool {
    &&& alike(g.position, h.position)
    &&& g.line@ == h.line@
    &&& nodes(g.arena@) == nodes(h.arena@)
    &&& g.history@.len() == h.history@.len()
    &&& forall|k: int|
        0 <= k < g.history@.len() ==> same_record(#[trigger] g.history@[k], h.history@[k])
    &&& g.done == h.done
    &&& g.result == h.result
}

// --- one search --------------------------------------------------------------

proof fn lemma_same_selection<A: Arithmetic>(
    a: Seq<Node>,
    b: Seq<Node>,
    n: int,
    arith: A,
    x: (u16, usize),
    y: (u16, usize),
)
    requires
        arith_repeats(arith),
        nodes(a) == nodes(b),
        arena_wf(nodes(a)),
        0 <= n < a.len(),
        selects(a, n, arith, Some(x)),
        selects(b, n, arith, Some(y)),
    ensures
        x == y,
{
    let v = nodes(a);
    assert(nodes(b).len() == b.len());
    assert(v[n] == a[n]@ && nodes(b)[n] == b[n]@);
    let s = choose|s: Seq<Real>| #[trigger]
        scored(a, n, arith, s) && best_edge(a[n].children@, s, Some(x));
    let t = choose|t: Seq<Real>| #[trigger]
        scored(b, n, arith, t) && best_edge(b[n].children@, t, Some(y));
    assert forall|j: int| 0 <= j < s.len() implies s[j] == t[j] by {
        let c = child(v, n, j);
        assert(0 <= c < v.len());
        assert(v[c] == a[c]@ && nodes(b)[c] == b[c]@);
        assert(call_ensures(
            A::score,
            (&arith, parent_visits(a[n]@), &a[child(nodes(a), n, j)]),
            s[j],
        ));
        assert(call_ensures(
            A::score,
            (&arith, parent_visits(b[n]@), &b[child(nodes(b), n, j)]),
            t[j],
        ));
    }
    assert(s =~= t);
    let p = choose|p: int|
        #[trigger] is_peak(s, p) && a[n].children@[p].0 == x.0 && a[n].children@[p].1 == x.1;
    let q = choose|q: int|
        #[trigger] is_peak(t, q) && b[n].children@[q].0 == y.0 && b[n].children@[q].1 == y.1;
    peak_is_unique(s, p, q);
}

/// Two walks from the root agree as far as both go.
proof fn lemma_same_steps<A: Arithmetic>(
    a: Seq<Node>,
    b: Seq<Node>,
    arith: A,
    path: Seq<usize>,
    handles: Seq<u16>,
    other: Seq<usize>,
    played: Seq<u16>,
    k: nat,
)
    requires
        arith_repeats(arith),
        nodes(a) == nodes(b),
        arena_wf(nodes(a)),
        walks(a, arith, path, handles),
        walks(b, arith, other, played),
        k < path.len(),
        k < other.len(),
    ensures
        path[k as int] == other[k as int],
        forall|j: int| 0 <= j < k ==> path[j] == #[trigger] other[j],
        forall|j: int| 0 <= j < k ==> handles[j] == #[trigger] played[j],
    decreases k,
{
    if k > 0 {
        lemma_same_steps(a, b, arith, path, handles, other, played, (k - 1) as nat);
        assert(steps_down(a, arith, path, handles, k - 1));
        assert(steps_down(b, arith, other, played, k - 1));
        assert(0 <= path[k - 1] < a.len());
        lemma_same_selection(
            a,
            b,
            path[k - 1] as int,
            arith,
            (handles[k - 1], path[k as int]),
            (played[k - 1], other[k as int]),
        );
    }
}

/// The way from the root to a leaf is the same in trees that are the same.
proof fn lemma_same_walk<A: Arithmetic>(
    a: Seq<Node>,
    b: Seq<Node>,
    arith: A,
    path: Seq<usize>,
    handles: Seq<u16>,
    other: Seq<usize>,
    played: Seq<u16>,
)
    requires
        arith_repeats(arith),
        nodes(a) == nodes(b),
        arena_wf(nodes(a)),
        walks(a, arith, path, handles),
        walks(b, arith, other, played),
    ensures
        path == other,
        handles == played,
{
    assert(nodes(a).len() == a.len() && nodes(b).len() == b.len());
    let m: nat = if path.len() <= other.len() {
        (path.len() - 1) as nat
    } else {
        (other.len() - 1) as nat
    };
    lemma_same_steps(a, b, arith, path, handles, other, played, m);
    let x = path[m as int] as int;
    assert(0 <= path[m as int] < a.len());
    assert(nodes(a)[x] == a[x]@ && nodes(b)[x] == b[x]@);
    if path.len() < other.len() {
        assert(steps_down(b, arith, other, played, m as int));
    }
    if other.len() < path.len() {
        assert(steps_down(a, arith, path, handles, m as int));
    }
    assert(path =~= other);
    assert(handles =~= played);
}

proof fn lemma_same_expansion<A: Arithmetic>(
    before: Seq<NodeView>,
    after: Seq<NodeView>,
    other: Seq<NodeView>,
    n: int,
    legal: Seq<Move>,
    logits: Seq<Real32>,
    arith: A,
)
    requires
        arith_repeats(arith),
        expands(before, after, n, legal, logits, arith),
        expands(before, other, n, legal, logits, arith),
    ensures
        after == other,
{
    if legal.len() > 0 {
        let (r, x) = choose|row: Vec<Real32>, priors: Vec<Real>| #[trigger]
            call_ensures(A::softmax, (&arith, &row), priors) && row@ == gathered(legal, logits)
                && after == expanded_at(before, n, legal, priors@);
        let (s, y) = choose|row: Vec<Real32>, priors: Vec<Real>| #[trigger]
            call_ensures(A::softmax, (&arith, &row), priors) && row@ == gathered(legal, logits)
                && other == expanded_at(before, n, legal, priors@);
        assert(x@ == y@);
    }
}

proof fn lemma_same_backup<A: Arithmetic>(
    before: Seq<NodeView>,
    after: Seq<NodeView>,
    other: Seq<NodeView>,
    path: Seq<usize>,
    value: Real,
    arith: A,
)
    requires
        arith_repeats(arith),
        backs_up(before, after, path, value, arith),
        backs_up(before, other, path, value, arith),
    ensures
        after == other,
    decreases path.len(),
{
    if path.len() > 0 {
        let n = path.last() as int;
        let rest = path.drop_last();
        let back = crate::ieee::negated(value);
        let x = choose|sum: Real| #[trigger]
            call_ensures(A::plus, (&arith, before[n].value_sum, value), sum) && backs_up(
                before.update(n, visited(before[n], sum)),
                after,
                rest,
                back,
                arith,
            );
        let y = choose|sum: Real| #[trigger]
            call_ensures(A::plus, (&arith, before[n].value_sum, value), sum) && backs_up(
                before.update(n, visited(before[n], sum)),
                other,
                rest,
                back,
                arith,
            );
        assert(x == y);
        lemma_same_backup(
            before.update(n, visited(before[n], x)),
            after,
            other,
            rest,
            back,
            arith,
        );
    }
}

proof fn lemma_same_noise<A: Arithmetic, T: Table>(
    before: Seq<NodeView>,
    after: Seq<NodeView>,
    other: Seq<NodeView>,
    arith: A,
    table: T,
    seat: u64,
    line: Vec<u16>,
    other_line: Vec<u16>,
)
    requires
        arith_repeats(arith),
        table_repeats(table),
        line@ == other_line@,
        noise_step(before, after, true, arith, table, seat, line),
        noise_step(before, other, true, arith, table, seat, other_line),
    ensures
        after == other,
{
    let need = noise_needed(before[0]);
    let v = choose|noise: Seq<Real>| #[trigger]
        noises(before, after, 0, noise, arith) && is_noise(need, table, seat, line, noise);
    let w = choose|noise: Seq<Real>| #[trigger]
        noises(before, other, 0, noise, arith) && is_noise(need, table, seat, other_line, noise);
    if need != NoiseDraw::Nothing {
        if let NoiseDraw::Sample(k) = need {
            let x = choose|x: Vec<Real>| #[trigger]
                call_ensures(T::noise, (&table, seat, &line, k), x) && v == x@;
            let y = choose|y: Vec<Real>| #[trigger]
                call_ensures(T::noise, (&table, seat, &other_line, k), y) && w == y@;
            assert(x@ == y@);
        }
        assert(v == w);
        let k = noise_count(before[0], v);
        assert forall|i: int| 0 <= i < before.len() implies after[i] == other[i] by {
            assert(after[i] == (NodeView {
                prior: after[i].prior,
                noised: before[i].noised || i == 0,
                ..before[i]
            }));
            assert(other[i] == (NodeView {
                prior: other[i].prior,
                noised: before[i].noised || i == 0,
                ..before[i]
            }));
            if among_children(before, 0, k, i) {
                let j = choose|j: int| 0 <= j < k && #[trigger] child(before, 0, j) == i;
                assert(call_ensures(
                    A::mix,
                    (&arith, before[child(before, 0, j)].prior, v[j]),
                    after[child(before, 0, j)].prior,
                ));
                assert(call_ensures(
                    A::mix,
                    (&arith, before[child(before, 0, j)].prior, w[j]),
                    other[child(before, 0, j)].prior,
                ));
            }
        }
        assert(after =~= other);
    }
}

/// Two games that are in the same state keep being so when their trees change in the same way.
proof fn lemma_same_but_tree(g: Game, h: Game, after: Game, other: Game)
    requires
        same_state(g, h),
        same_but_tree(g, after),
        same_but_tree(h, other),
        nodes(after.arena@) == nodes(other.arena@),
    ensures
        same_state(after, other),
{
    assert forall|k: int| 0 <= k < after.history@.len() implies same_record(
        #[trigger] after.history@[k],
        other.history@[k],
    ) by {
        assert(same_record(g.history@[k], h.history@[k]));
    }
}

proof fn lemma_same_roots<A: Arithmetic>(
    g: Game,
    h: Game,
    after: Game,
    other: Game,
    judge: Judge,
    arith: A,
)
    requires
        arith_repeats(arith),
        same_state(g, h),
        g.arena@.len() > 0,
        h.arena@.len() > 0,
        roots_alone(g, after, judge, arith),
        roots_alone(h, other, judge, arith),
    ensures
        same_state(after, other),
{
    assert(nodes(g.arena@)[0] == g.arena@[0]@);
    assert(nodes(h.arena@)[0] == h.arena@[0]@);
    if !g.done && !g.arena@[0].expanded {
        lemma_same_expansion(
            nodes(g.arena@),
            nodes(after.arena@),
            nodes(other.arena@),
            0,
            g.position.legal@,
            judge(g.position.enc@).0,
            arith,
        );
        lemma_same_but_tree(g, h, after, other);
    }
}

proof fn lemma_same_root_noise<A: Arithmetic, T: Table>(
    g: Game,
    h: Game,
    after: Game,
    other: Game,
    arith: A,
    table: T,
    seat: u64,
)
    requires
        arith_repeats(arith),
        table_repeats(table),
        same_state(g, h),
        g.arena@.len() > 0,
        h.arena@.len() > 0,
        gets_root_noise(g, after, arith, table, seat),
        gets_root_noise(h, other, arith, table, seat),
    ensures
        same_state(after, other),
{
    assert(nodes(g.arena@)[0] == g.arena@[0]@);
    assert(nodes(h.arena@)[0] == h.arena@[0]@);
    if !g.done && g.arena@[0].expanded {
        lemma_same_noise(
            nodes(g.arena@),
            nodes(after.arena@),
            nodes(other.arena@),
            arith,
            table,
            seat,
            g.line,
            h.line,
        );
        lemma_same_but_tree(g, h, after, other);
    }
}

proof fn lemma_same_simulation<A: Arithmetic, T: Table>(
    g: Game,
    h: Game,
    after: Game,
    other: Game,
    seat: u64,
    judge: Judge,
    arith: A,
    table: T,
)
    requires
        arith_repeats(arith),
        table_repeats(table),
        same_state(g, h),
        sims_alone(g, after, seat, judge, arith, table),
        sims_alone(h, other, seat, judge, arith, table),
    ensures
        same_state(after, other),
{
    if !g.done {
        let a = nodes(g.arena@);
        let x = nodes(after.arena@);
        let y = nodes(other.arena@);
        let (leaf, at) = choose|leaf: Leaf, at: Position| #[trigger]
            reached(g, leaf, at, arith, table, seat) && same_but_tree(g, after)
                && match at.terminal {
                Some(value) => backs_up(a, x, leaf.path@, value, arith),
                None => exists|mid: Seq<NodeView>| #[trigger]
                    expands(
                        a,
                        mid,
                        leaf.path@.last() as int,
                        at.legal@,
                        judge(at.enc@).0,
                        arith,
                    ) && backs_up(mid, x, leaf.path@, judge(at.enc@).1, arith),
            };
        let (leaf2, at2) = choose|leaf: Leaf, at: Position| #[trigger]
            reached(h, leaf, at, arith, table, seat) && same_but_tree(h, other)
                && match at.terminal {
                Some(value) => backs_up(a, y, leaf.path@, value, arith),
                None => exists|mid: Seq<NodeView>| #[trigger]
                    expands(
                        a,
                        mid,
                        leaf.path@.last() as int,
                        at.legal@,
                        judge(at.enc@).0,
                        arith,
                    ) && backs_up(mid, y, leaf.path@, judge(at.enc@).1, arith),
            };
        let handles = choose|handles: Vec<u16>|
            walks(g.arena@, arith, leaf.path@, handles@) && #[trigger] call_ensures(
                T::look,
                (&table, seat, &g.line, &handles),
                at,
            );
        let handles2 = choose|handles: Vec<u16>|
            walks(h.arena@, arith, leaf2.path@, handles@) && #[trigger] call_ensures(
                T::look,
                (&table, seat, &h.line, &handles),
                at2,
            );
        lemma_same_walk(
            g.arena@,
            h.arena@,
            arith,
            leaf.path@,
            handles@,
            leaf2.path@,
            handles2@,
        );
        assert(alike(at, at2));
        match at.terminal {
            Some(value) => {
                lemma_same_backup(a, x, y, leaf.path@, value, arith);
            },
            None => {
                let n = leaf.path@.last() as int;
                let row = judge(at.enc@).0;
                let value = judge(at.enc@).1;
                let mid = choose|mid: Seq<NodeView>| #[trigger]
                    expands(a, mid, n, at.legal@, row, arith) && backs_up(
                        mid,
                        x,
                        leaf.path@,
                        value,
                        arith,
                    );
                let mid2 = choose|mid: Seq<NodeView>| #[trigger]
                    expands(a, mid, n, at.legal@, row, arith) && backs_up(
                        mid,
                        y,
                        leaf.path@,
                        value,
                        arith,
                    );
                lemma_same_expansion(a, mid, mid2, n, at.legal@, row, arith);
                lemma_same_backup(mid, x, y, leaf.path@, value, arith);
            },
        }
        lemma_same_but_tree(g, h, after, other);
    }
}

proof fn lemma_same_simulations<A: Arithmetic, T: Table>(
    states: Seq<Game>,
    others: Seq<Game>,
    k: nat,
    n: int,
    seat: u64,
    judge: Judge,
    arith: A,
    table: T,
)
    requires
        arith_repeats(arith),
        table_repeats(table),
        k <= n,
        states.len() == n + 1,
        others.len() == n + 1,
        same_state(states[0], others[0]),
        forall|j: int|
            0 <= j < n ==> #[trigger] sims_alone_at(states, j, seat, judge, arith, table),
        forall|j: int|
            0 <= j < n ==> #[trigger] sims_alone_at(others, j, seat, judge, arith, table),
    ensures
        same_state(states[k as int], others[k as int]),
    decreases k,
{
    if k > 0 {
        lemma_same_simulations(
            states,
            others,
            (k - 1) as nat,
            n,
            seat,
            judge,
            arith,
            table,
        );
        assert(sims_alone_at(states, k - 1, seat, judge, arith, table));
        assert(sims_alone_at(others, k - 1, seat, judge, arith, table));
        lemma_same_simulation(
            states[k - 1],
            others[k - 1],
            states[k as int],
            others[k as int],
            seat,
            judge,
            arith,
            table,
        );
    }
}

/// Searching games that are in the same state leaves them in the same state: the same tree down
/// to the last count and sum.
pub proof fn searches_repeat<A: Arithmetic, T: Table>(
    g: Game,
    h: Game,
    after: Game,
    other: Game,
    seat: u64,
    n: int,
    noise: bool,
    judge: Judge,
    arith: A,
    table: T,
)
    requires
        arith_repeats(arith),
        table_repeats(table),
        0 <= n,
        same_state(g, h),
        game_wf(g),
        searches_alone(g, after, seat, n, noise, judge, arith, table),
        searches_alone(h, other, seat, n, noise, judge, arith, table),
    ensures
        same_state(after, other),
{
    let (mid, states) = choose|mid: Game, states: Seq<Game>|
        {
            &&& #[trigger] roots_alone(g, mid, judge, arith)
            &&& states.len() == n + 1
            &&& if noise {
                gets_root_noise(mid, #[trigger] states[0], arith, table, seat)
            } else {
                states[0] == mid
            }
            &&& states[n] == after
            &&& forall|k: int|
                0 <= k < n ==> #[trigger] sims_alone_at(states, k, seat, judge, arith, table)
        };
    let (mid2, others) = choose|mid: Game, states: Seq<Game>|
        {
            &&& #[trigger] roots_alone(h, mid, judge, arith)
            &&& states.len() == n + 1
            &&& if noise {
                gets_root_noise(mid, #[trigger] states[0], arith, table, seat)
            } else {
                states[0] == mid
            }
            &&& states[n] == other
            &&& forall|k: int|
                0 <= k < n ==> #[trigger] sims_alone_at(states, k, seat, judge, arith, table)
        };
    assert(nodes(g.arena@).len() == g.arena@.len());
    assert(nodes(h.arena@).len() == h.arena@.len());
    lemma_same_roots(g, h, mid, mid2, judge, arith);
    if noise {
        lemma_grown_root(g, mid, judge, arith);
        lemma_grown_root(h, mid2, judge, arith);
        lemma_same_root_noise(mid, mid2, states[0], others[0], arith, table, seat);
    }
    lemma_same_simulations(states, others, n as nat, n, seat, judge, arith, table);
}

proof fn lemma_grown_root<A: Arithmetic>(before: Game, after: Game, judge: Judge, arith: A)
    requires
        roots_alone(before, after, judge, arith),
        before.arena@.len() > 0,
    ensures
        after.arena@.len() > 0,
{
    assert(nodes(after.arena@).len() == after.arena@.len());
    if !before.done && !before.arena@[0].expanded {
        assert(nodes(after.arena@).len() >= nodes(before.arena@).len());
    }
}

/// How games are grouped into batches changes none of them: a game that is searched in two
/// batches, at place `i` of the one and place `j` of the other, has the same tree after both.
pub proof fn groupings_change_nothing<A: Arithmetic, T: Table, E: Evaluator, F: Evaluator>(
    games: Seq<Game>,
    searched: Seq<Game>,
    seats: Seq<u64>,
    net: E,
    i: int,
    others: Seq<Game>,
    other_searched: Seq<Game>,
    other_seats: Seq<u64>,
    other_net: F,
    j: int,
    n: int,
    noise: bool,
    judge: Judge,
    arith: A,
    table: T,
)
    requires
        arith_repeats(arith),
        table_repeats(table),
        judges_rows(net, judge),
        judges_rows(other_net, judge),
        0 <= n,
        0 <= i < games.len() <= usize::MAX,
        0 <= j < others.len() <= usize::MAX,
        seats[i] == other_seats[j],
        same_state(games[i], others[j]),
        game_wf(games[i]),
        searches(games, searched, seats, n, noise, arith, table, net),
        searches(others, other_searched, other_seats, n, noise, arith, table, other_net),
    ensures
        same_state(searched[i], other_searched[j]),
{
    games_do_not_mix(games, searched, seats, n, noise, i, judge, arith, table, net);
    games_do_not_mix(
        others,
        other_searched,
        other_seats,
        n,
        noise,
        j,
        judge,
        arith,
        table,
        other_net,
    );
    searches_repeat(
        games[i],
        others[j],
        searched[i],
        other_searched[j],
        seats[i],
        n,
        noise,
        judge,
        arith,
        table,
    );
}

// --- one move ----------------------------------------------------------------

proof fn lemma_same_pick(cumulative: Seq<Real>, threshold: Real, n: int, r: int, s: int)
    requires
        is_pick(cumulative, threshold, n, r),
        is_pick(cumulative, threshold, n, s),
    ensures
        r == s,
{
    if r < s {
        assert(crate::ieee::greater(cumulative[r], threshold));
    }
    if s < r {
        assert(crate::ieee::greater(cumulative[s], threshold));
    }
}

proof fn lemma_same_first_max(counts: Seq<u32>, r: int, s: int)
    requires
        is_first_max(counts, r),
        is_first_max(counts, s),
    ensures
        r == s,
{
    if r < s {
        assert(counts[r] < counts[s]);
        assert(counts[s] <= counts[r]);
    }
    if s < r {
        assert(counts[s] < counts[r]);
        assert(counts[r] <= counts[s]);
    }
}

proof fn lemma_same_policy<A: Arithmetic>(
    a: Seq<NodeView>,
    temperature: Real,
    arith: A,
    pi: Seq<Real32>,
    other: Seq<Real32>,
)
    requires
        arith_repeats(arith),
        is_policy(a, 0, temperature, arith, pi),
        is_policy(a, 0, temperature, arith, other),
    ensures
        pi == other,
{
    let counts = child_visits(a, 0);
    let indices = child_indices(a, 0);
    if counts.len() > 0 {
        if is_zero(temperature) {
            let r = choose|r: int| #[trigger]
                is_first_max(counts, r) && pi == no_policy().update(indices[r], ONE32);
            let s = choose|s: int| #[trigger]
                is_first_max(counts, s) && other == no_policy().update(indices[s], ONE32);
            lemma_same_first_max(counts, r, s);
        } else {
            let (c, x) = choose|c: Vec<u32>, shares: Option<Vec<Real32>>| #[trigger]
                call_ensures(A::shares, (&arith, &c, temperature), shares) && c@ == counts && pi
                    == policy_of(
                    indices,
                    match shares {
                        Some(s) => Some(s@),
                        None => None,
                    },
                );
            let (d, y) = choose|c: Vec<u32>, shares: Option<Vec<Real32>>| #[trigger]
                call_ensures(A::shares, (&arith, &c, temperature), shares) && c@ == counts && other
                    == policy_of(
                    indices,
                    match shares {
                        Some(s) => Some(s@),
                        None => None,
                    },
                );
            assert(shares_view(x) == shares_view(y));
        }
    }
}

/// Sampling leads to the same move, which is one of the moves at the root.
proof fn lemma_same_sample<T: Table>(
    a: Seq<NodeView>,
    temperature: Real,
    table: T,
    seat: u64,
    line: Vec<u16>,
    other_line: Vec<u16>,
    handle: u16,
    other: u16,
) -> (r: int)
    requires
        table_repeats(table),
        line@ == other_line@,
        is_sample(a, 0, temperature, table, seat, line, handle),
        is_sample(a, 0, temperature, table, seat, other_line, other),
    ensures
        handle == other,
        0 <= r < a[0].children.len(),
        a[0].children[r].0 == handle,
{
    let counts = child_visits(a, 0);
    let edges = a[0].children;
    if is_zero(temperature) {
        let r = choose|r: int| #[trigger] is_first_max(counts, r) && handle == edges[r].0;
        let s = choose|s: int| #[trigger] is_first_max(counts, s) && other == edges[s].0;
        lemma_same_first_max(counts, r, s);
        r
    } else {
        let (c, x, cx, r) = choose|c: Vec<u32>, threshold: Real, cumulative: Vec<Real>, r: int|
            #![trigger call_ensures(T::draw, (&table, seat, &line, &c, temperature), (threshold, cumulative)), edges[r]]
            call_ensures(
                T::draw,
                (&table, seat, &line, &c, temperature),
                (threshold, cumulative),
            ) && c@ == counts && is_pick(cumulative@, threshold, edges.len() as int, r) && handle
                == edges[r].0;
        let (d, y, cy, s) = choose|c: Vec<u32>, threshold: Real, cumulative: Vec<Real>, r: int|
            #![trigger call_ensures(T::draw, (&table, seat, &other_line, &c, temperature), (threshold, cumulative)), edges[r]]
            call_ensures(
                T::draw,
                (&table, seat, &other_line, &c, temperature),
                (threshold, cumulative),
            ) && c@ == counts && is_pick(cumulative@, threshold, edges.len() as int, r) && other
                == edges[r].0;
        assert(x == y && cx@ == cy@);
        lemma_same_pick(cx@, x, edges.len() as int, r, s);
        r
    }
}

/// The first edge with the handle of edge `r`.
proof fn lemma_first_edge(edges: Seq<(u16, u32)>, handle: u16, r: int) -> (p: int)
    requires
        0 <= r < edges.len(),
        edges[r].0 == handle,
    ensures
        first_edge(edges, handle, p),
    decreases r,
{
    if exists|k: int| 0 <= k < r && (#[trigger] edges[k]).0 == handle {
        let k = choose|k: int| 0 <= k < r && (#[trigger] edges[k]).0 == handle;
        lemma_first_edge(edges, handle, k)
    } else {
        r
    }
}

/// Games that are in the same state play the same move and are in the same state afterwards.
pub proof fn moves_repeat<A: Arithmetic, T: Table>(
    g: Game,
    h: Game,
    after: Game,
    other: Game,
    arith: A,
    table: T,
    seat: u64,
)
    requires
        arith_repeats(arith),
        table_repeats(table),
        same_state(g, h),
        moves_on(g, after, arith, table, seat),
        moves_on(h, other, arith, table, seat),
    ensures
        same_state(after, other),
{
    let steps = anneal_steps(g.history@.len() as int) as usize;
    let a = nodes(g.arena@);
    let (t, pi, handle, next) = choose|t: Real, pi: Vec<Real32>, handle: u16, next: Position|
        {
            &&& #[trigger] call_ensures(A::temper, (&arith, steps), t)
            &&& is_policy(a, 0, t, arith, pi@)
            &&& is_sample(a, 0, t, table, seat, g.line, handle)
            &&& #[trigger] call_ensures(T::play, (&table, seat, &after.line), next)
            &&& #[trigger] plays(g, after, pi, handle, next)
        };
    let (t2, pi2, handle2, next2) = choose|
        t: Real,
        pi: Vec<Real32>,
        handle: u16,
        next: Position,
    |
        {
            &&& #[trigger] call_ensures(A::temper, (&arith, steps), t)
            &&& is_policy(a, 0, t, arith, pi@)
            &&& is_sample(a, 0, t, table, seat, h.line, handle)
            &&& #[trigger] call_ensures(T::play, (&table, seat, &other.line), next)
            &&& #[trigger] plays(h, other, pi, handle, next)
        };
    assert(t == t2);
    lemma_same_policy(a, t, arith, pi@, pi2@);
    let r = lemma_same_sample(a, t, table, seat, g.line, h.line, handle, handle2);
    let p = lemma_first_edge(a[0].children, handle, r);
    assert(first_edge(a[0].children, handle, p));
    assert(nodes(after.arena@) == nodes(other.arena@));
    assert(after.line@ == other.line@);
    assert(alike(next, next2));
    assert forall|k: int| 0 <= k < after.history@.len() implies same_record(
        #[trigger] after.history@[k],
        other.history@[k],
    ) by {
        if k < g.history@.len() {
            assert(same_record(g.history@[k], h.history@[k]));
        }
    }
}

// --- a slot ------------------------------------------------------------------

/// The two games that are over are the same one, with the same rows.
pub open spec fn same_end(f: Option<FinishedGame>, g: Option<FinishedGame>) -> bool {
    match (f, g) {
        (Some(f), Some(g)) => {
            &&& f.game_uid == g.game_uid
            &&& f.rows@.len() == g.rows@.len()
            &&& forall|k: int|
                0 <= k < f.rows@.len() ==> same_row(#[trigger] f.rows@[k], g.rows@[k])
        },
        (None, None) => true,
        _ => false,
    }
}

/// The two set-ups differ at most in how large the batches are.
pub open spec fn same_play(config: RunConfig, other: RunConfig) -> bool {
    other == (RunConfig { max_batch: other.max_batch, ..config })
}

proof fn lemma_same_rows(g: Game, h: Game, rows: Seq<Row>, others: Seq<Row>)
    requires
        same_state(g, h),
        rows_of(g, rows),
        rows_of(h, others),
    ensures
        rows.len() == others.len(),
        forall|k: int| 0 <= k < rows.len() ==> same_row(#[trigger] rows[k], others[k]),
{
    assert forall|k: int| 0 <= k < rows.len() implies same_row(#[trigger] rows[k], others[k]) by {
        assert(is_row(rows[k], g.history@[k], g.result as int));
        assert(is_row(others[k], h.history@[k], h.result as int));
        assert(same_record(g.history@[k], h.history@[k]));
    }
}

/// Two slots with games in the same state are in the same state after the move, and the games
/// that are over give the same rows.
proof fn lemma_same_slot_step<A: Arithmetic, T: Table>(
    g: Game,
    h: Game,
    after: (Game, Slot),
    other: (Game, Slot),
    slot: Slot,
    end: Option<FinishedGame>,
    other_end: Option<FinishedGame>,
    config: RunConfig,
    other_config: RunConfig,
    arith: A,
    table: T,
)
    requires
        arith_repeats(arith),
        table_repeats(table),
        same_play(config, other_config),
        same_state(g, h),
        slot_steps(g, after.0, slot, after.1, end, config, arith, table),
        slot_steps(h, other.0, slot, other.1, other_end, other_config, arith, table),
    ensures
        same_state(after.0, other.0),
        after.1 == other.1,
        same_end(end, other_end),
{
    if !g.done {
        let seat = seat_of(slot);
        let mid = choose|mid: Game| #[trigger]
            moves_on(g, mid, arith, table, seat) && if mid.done {
                &&& end matches Some(f) && f.game_uid == seat && rows_of(mid, f.rows@)
                &&& if config.refill {
                    &&& is_new_game(after.0, after.0.position)
                    &&& call_ensures(
                        T::start,
                        (&table, seat_of(after.1), Some(after.1.seed)),
                        after.0.position,
                    )
                    &&& after.1 == (Slot {
                        seed: seed_of_slot(
                            config.master_seed,
                            slot.global_index as u64,
                            (slot.generation + 1) as u32,
                        ),
                        global_index: slot.global_index,
                        generation: (slot.generation + 1) as u32,
                    })
                } else {
                    &&& after.0 == (Game { history: after.0.history, ..mid })
                    &&& after.0.history@.len() == 0
                    &&& after.1 == slot
                }
            } else {
                after.0 == mid && after.1 == slot && end is None
            };
        let mid2 = choose|mid: Game| #[trigger]
            moves_on(h, mid, arith, table, seat) && if mid.done {
                &&& other_end matches Some(f) && f.game_uid == seat && rows_of(mid, f.rows@)
                &&& if config.refill {
                    &&& is_new_game(other.0, other.0.position)
                    &&& call_ensures(
                        T::start,
                        (&table, seat_of(other.1), Some(other.1.seed)),
                        other.0.position,
                    )
                    &&& other.1 == (Slot {
                        seed: seed_of_slot(
                            config.master_seed,
                            slot.global_index as u64,
                            (slot.generation + 1) as u32,
                        ),
                        global_index: slot.global_index,
                        generation: (slot.generation + 1) as u32,
                    })
                } else {
                    &&& other.0 == (Game { history: other.0.history, ..mid })
                    &&& other.0.history@.len() == 0
                    &&& other.1 == slot
                }
            } else {
                other.0 == mid && other.1 == slot && other_end is None
            };
        moves_repeat(g, h, mid, mid2, arith, table, seat);
        if mid.done {
            lemma_same_rows(mid, mid2, end->0.rows@, other_end->0.rows@);
            if config.refill {
                lemma_same_new_games(after.0, other.0);
            }
        }
    }
}

/// New games at positions that are alike are in the same state.
proof fn lemma_same_new_games(g: Game, h: Game)
    requires
        is_new_game(g, g.position),
        is_new_game(h, h.position),
        alike(g.position, h.position),
    ensures
        same_state(g, h),
{
    assert(g.line@ =~= h.line@);
}

/// A round leaves slots with games in the same state in the same state.
pub proof fn rounds_repeat<A: Arithmetic, T: Table>(
    before: (Game, Slot),
    after: (Game, Slot),
    end: Option<FinishedGame>,
    config: RunConfig,
    other_before: (Game, Slot),
    other_after: (Game, Slot),
    other_end: Option<FinishedGame>,
    other_config: RunConfig,
    judge: Judge,
    arith: A,
    table: T,
)
    requires
        arith_repeats(arith),
        table_repeats(table),
        same_play(config, other_config),
        same_state(before.0, other_before.0),
        before.1 == other_before.1,
        game_wf(before.0),
        slot_round(before, after, end, config, judge, arith, table),
        slot_round(other_before, other_after, other_end, other_config, judge, arith, table),
    ensures
        same_state(after.0, other_after.0),
        after.1 == other_after.1,
        same_end(end, other_end),
{
    let sims = config.sims as int;
    let noise = config.add_root_noise;
    let seat = seat_of(before.1);
    let mid = choose|mid: Game| #[trigger]
        searches_alone(before.0, mid, seat, sims, noise, judge, arith, table) && slot_steps(
            mid,
            after.0,
            before.1,
            after.1,
            end,
            config,
            arith,
            table,
        );
    let mid2 = choose|mid: Game| #[trigger]
        searches_alone(other_before.0, mid, seat, sims, noise, judge, arith, table) && slot_steps(
            mid,
            other_after.0,
            before.1,
            other_after.1,
            other_end,
            other_config,
            arith,
            table,
        );
    searches_repeat(
        before.0,
        other_before.0,
        mid,
        mid2,
        seat,
        sims,
        noise,
        judge,
        arith,
        table,
    );
    lemma_same_slot_step(
        mid,
        mid2,
        after,
        other_after,
        before.1,
        end,
        other_end,
        config,
        other_config,
        arith,
        table,
    );
}

proof fn lemma_same_way<A: Arithmetic, T: Table>(
    path: Seq<(Game, Slot)>,
    ends: Seq<Option<FinishedGame>>,
    config: RunConfig,
    others: Seq<(Game, Slot)>,
    other_ends: Seq<Option<FinishedGame>>,
    other_config: RunConfig,
    gi: usize,
    judge: Judge,
    arith: A,
    table: T,
    k: nat,
)
    requires
        arith_repeats(arith),
        table_repeats(table),
        same_play(config, other_config),
        slot_run(path, ends, gi, config, judge, arith, table),
        slot_run(others, other_ends, gi, other_config, judge, arith, table),
        forall|j: int| 0 <= j < path.len() ==> game_wf((#[trigger] path[j]).0),
        k < path.len(),
        k < others.len(),
    ensures
        same_state(path[k as int].0, others[k as int].0),
        path[k as int].1 == others[k as int].1,
        forall|j: int| 0 <= j < k ==> same_end(#[trigger] ends[j], other_ends[j]),
    decreases k,
{
    if k == 0 {
        lemma_same_new_games(path[0].0, others[0].0);
    } else {
        lemma_same_way(
            path,
            ends,
            config,
            others,
            other_ends,
            other_config,
            gi,
            judge,
            arith,
            table,
            (k - 1) as nat,
        );
        assert(slot_round_at(path, ends, k - 1, config, judge, arith, table));
        assert(slot_round_at(others, other_ends, k - 1, other_config, judge, arith, table));
        assert(game_wf(path[k - 1].0));
        rounds_repeat(
            path[k - 1],
            path[k as int],
            ends[k - 1],
            config,
            others[k - 1],
            others[k as int],
            other_ends[k - 1],
            other_config,
            judge,
            arith,
            table,
        );
    }
}

/// No game depends on how slots are dealt out to workers, on how many workers there are, on how
/// they are scheduled, or on how large the batches are. Take two workers' runs in which slot
/// `gi` has place `i` in the one share and place `j` in the other, with networks that judge each
/// position by itself and alike. After any number of rounds the slot is in the same state in
/// both runs, and it has ended the same games with the same rows.
pub proof fn runs_repeat<A: Arithmetic, T: Table, E: Evaluator, F: Evaluator>(
    states: Seq<Shard>,
    ends: Seq<Seq<Option<FinishedGame>>>,
    share: Seq<usize>,
    config: RunConfig,
    net: E,
    i: int,
    others: Seq<Shard>,
    other_ends: Seq<Seq<Option<FinishedGame>>>,
    other_share: Seq<usize>,
    other_config: RunConfig,
    other_net: F,
    j: int,
    judge: Judge,
    arith: A,
    table: T,
    k: nat,
)
    requires
        arith_repeats(arith),
        table_repeats(table),
        judges_rows(net, judge),
        judges_rows(other_net, judge),
        same_play(config, other_config),
        shard_run(states, ends, share, config, arith, table, net),
        shard_run(others, other_ends, other_share, other_config, arith, table, other_net),
        0 <= i < share.len(),
        0 <= j < other_share.len(),
        share[i] == other_share[j],
        k < states.len(),
        k < others.len(),
    ensures
        same_state(states[k as int].games@[i], others[k as int].games@[j]),
        states[k as int].slots@[i] == others[k as int].slots@[j],
        forall|r: int| 0 <= r < k ==> same_end((#[trigger] ends[r])[i], other_ends[r][j]),
{
    let path = path_of(states, i);
    let mine = ends_of(ends, i);
    slots_go_their_own_way(states, ends, share, i, config, judge, arith, table, net);
    slots_go_their_own_way(
        others,
        other_ends,
        other_share,
        j,
        other_config,
        judge,
        arith,
        table,
        other_net,
    );
    assert forall|r: int| 0 <= r < path.len() implies game_wf((#[trigger] path[r]).0) by {
        shares_stay_well_formed(states, ends, share, i, config, arith, table, net, r as nat);
    }
    lemma_same_way(
        path,
        mine,
        config,
        path_of(others, j),
        ends_of(other_ends, j),
        other_config,
        share[i],
        judge,
        arith,
        table,
        k,
    );
    assert forall|r: int| 0 <= r < k implies same_end(
        (#[trigger] ends[r])[i],
        other_ends[r][j],
    ) by {
        assert(same_end(mine[r], ends_of(other_ends, j)[r]));
    }
}

} // verus!

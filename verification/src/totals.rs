//! A whole run: what all workers together hand on, however the slots were dealt out to them.

use crate::arith::{Arithmetic, Evaluator, Table};
use crate::batch::{judges_rows, Judge};
use crate::consumer::finished_rows_of;
use crate::game::Row;
use crate::ieee::Real32;
use crate::replay::{arith_repeats, runs_repeat, same_end, same_play, same_row, table_repeats};
use crate::shards::{
    ended, ends_in, ends_of, every_slot_is_dealt_once, is_share, owner, path_of,
    rounds_tell_every_slot, shard_run, slots_end_one_game, slots_go_their_own_way,
    slots_rest_when_done, FinishedGame, RunConfig, Shard,
};
use vstd::multiset::Multiset;
use vstd::prelude::*;

verus! {

// --- sums --------------------------------------------------------------------

/// The first `n` multisets together.
pub open spec fn sum_up<V>(f: spec_fn(int) -> Multiset<V>, n: nat) -> Multiset<V>
    decreases n,
{
    if n == 0 {
        Multiset::empty()
    } else {
        sum_up(f, (n - 1) as nat).add(f(n - 1))
    }
}

proof fn lemma_sum_same<V>(
    f: spec_fn(int) -> Multiset<V>,
    g: spec_fn(int) -> Multiset<V>,
    n: nat,
)
    requires
        forall|i: int| 0 <= i < n ==> #[trigger] f(i) == g(i),
    ensures
        sum_up(f, n) == sum_up(g, n),
    decreases n,
{
    if n > 0 {
        lemma_sum_same(f, g, (n - 1) as nat);
        assert(f(n - 1) == g(n - 1));
    }
}

/// Nothing is added beyond `m`.
proof fn lemma_sum_cut<V>(f: spec_fn(int) -> Multiset<V>, m: nat, n: nat)
    requires
        m <= n,
        forall|i: int| m <= i < n ==> #[trigger] f(i) == Multiset::<V>::empty(),
    ensures
        sum_up(f, n) == sum_up(f, m),
    decreases n,
{
    if m < n {
        lemma_sum_cut(f, m, (n - 1) as nat);
        assert(f(n - 1) == Multiset::<V>::empty());
        assert(sum_up(f, n) =~= sum_up(f, m));
    }
}

proof fn lemma_sum_pairs<V>(
    f: spec_fn(int) -> Multiset<V>,
    g: spec_fn(int) -> Multiset<V>,
    n: nat,
)
    ensures
        sum_up(|i: int| f(i).add(g(i)), n) == sum_up(f, n).add(sum_up(g, n)),
    decreases n,
{
    let both = |i: int| f(i).add(g(i));
    if n > 0 {
        lemma_sum_pairs(f, g, (n - 1) as nat);
        assert(both(n - 1) == f(n - 1).add(g(n - 1)));
        assert(sum_up(both, n) =~= sum_up(f, n).add(sum_up(g, n)));
    } else {
        assert(sum_up(both, n) =~= sum_up(f, n).add(sum_up(g, n)));
    }
}

/// A table can be summed up row by row or column by column.
proof fn lemma_sum_swap<V>(h: spec_fn(int, int) -> Multiset<V>, n: nat, m: nat)
    ensures
        sum_up(|i: int| sum_up(|j: int| h(i, j), m), n) == sum_up(
            |j: int| sum_up(|i: int| h(i, j), n),
            m,
        ),
    decreases n,
{
    let rows = |i: int| sum_up(|j: int| h(i, j), m);
    let cols = |j: int| sum_up(|i: int| h(i, j), n);
    if n == 0 {
        assert forall|j: int| 0 <= j < m implies #[trigger] cols(j) == Multiset::<V>::empty() by {}
        lemma_sum_cut(cols, 0, m);
    } else {
        let k = (n - 1) as nat;
        lemma_sum_swap(h, k, m);
        let fewer = |j: int| sum_up(|i: int| h(i, j), k);
        let last = |j: int| h(k as int, j);
        lemma_sum_pairs(fewer, last, m);
        let both = |j: int| fewer(j).add(last(j));
        assert forall|j: int| 0 <= j < m implies #[trigger] cols(j) == both(j) by {
            let col = |i: int| h(i, j);
            assert(sum_up(col, n) == sum_up(col, k).add(col(k as int)));
        }
        lemma_sum_same(cols, both, m);
        assert(rows(k as int) == sum_up(last, m));
    }
}

/// What is empty but for one place sums up to what is there.
proof fn lemma_sum_one<V>(f: spec_fn(int) -> Multiset<V>, n: nat, at: int)
    requires
        0 <= at < n,
        forall|i: int| 0 <= i < n && i != at ==> #[trigger] f(i) == Multiset::<V>::empty(),
    ensures
        sum_up(f, n) == f(at),
{
    lemma_sum_cut(f, (at + 1) as nat, n);
    lemma_sum_cut(f, 0, at as nat);
    assert(sum_up(f, (at + 1) as nat) =~= f(at));
}

/// So many multisets of one element each.
proof fn lemma_sum_len<V>(f: spec_fn(int) -> Multiset<V>, n: nat)
    requires
        forall|i: int| 0 <= i < n ==> (#[trigger] f(i)).len() == 1,
    ensures
        sum_up(f, n).len() == n,
    decreases n,
{
    if n > 0 {
        lemma_sum_len(f, (n - 1) as nat);
        assert(f(n - 1).len() == 1);
    }
}

// --- shares ------------------------------------------------------------------

/// What the slots of a share add up to, slot by slot.
proof fn lemma_share_sum<V>(
    share: Seq<usize>,
    k: int,
    n: int,
    upto: nat,
    total: int,
    f: spec_fn(int) -> Multiset<V>,
)
    requires
        is_share(share, k, n, upto as int, total),
        upto <= usize::MAX,
    ensures
        sum_up(|i: int| f(share[i] as int), share.len()) == sum_up(
            |gi: int|
                if owner(gi, n, total) == k {
                    f(gi)
                } else {
                    Multiset::<V>::empty()
                },
            upto,
        ),
    decreases upto,
{
    let mine = |i: int| f(share[i] as int);
    let all = |gi: int|
        if owner(gi, n, total) == k {
            f(gi)
        } else {
            Multiset::<V>::empty()
        };
    if upto == 0 {
        if share.len() > 0 {
            assert(share[0] < upto);
        }
    } else {
        let gi = upto - 1;
        if owner(gi, n, total) == k {
            assert(share.contains(gi as usize));
            let at = choose|at: int| 0 <= at < share.len() && share[at] == gi as usize;
            let m = share.len() - 1;
            if at < m {
                assert(share[at] < share[m]);
                assert(share[m] < upto);
            }
            let front = share.drop_last();
            assert(is_share(front, k, n, gi, total)) by {
                assert forall|j: int| 0 <= j < front.len() implies (#[trigger] front[j]) < gi
                    && owner(front[j] as int, n, total) == k by {
                    assert(share[j] < share[m]);
                }
                assert forall|i: int, j: int| 0 <= i < j < front.len() implies #[trigger] front[i]
                    < #[trigger] front[j] by {
                    assert(share[i] < share[j]);
                }
                assert forall|x: int|
                    0 <= x < gi && #[trigger] owner(x, n, total) == k implies front.contains(
                    x as usize,
                ) by {
                    assert(share.contains(x as usize));
                    let j = choose|j: int| 0 <= j < share.len() && share[j] == x as usize;
                    assert(front[j] == x as usize);
                }
            }
            lemma_share_sum(front, k, n, gi as nat, total, f);
            let fewer = |i: int| f(front[i] as int);
            lemma_sum_same(mine, fewer, front.len());
            assert(mine(m) == f(gi));
            assert(all(gi) == f(gi));
        } else {
            assert(is_share(share, k, n, gi, total)) by {
                assert forall|j: int| 0 <= j < share.len() implies (#[trigger] share[j]) < gi
                    && owner(share[j] as int, n, total) == k by {
                    if share[j] == gi {
                        assert(owner(share[j] as int, n, total) == k);
                    }
                }
            }
            lemma_share_sum(share, k, n, gi as nat, total, f);
            assert(all(gi) == Multiset::<V>::empty());
            assert(sum_up(all, upto) =~= sum_up(all, gi as nat));
        }
    }
}

/// What all slots of all shares add up to is what all slots add up to.
proof fn lemma_all_shares<V>(shares: Seq<Seq<usize>>, total: nat, f: spec_fn(int) -> Multiset<V>)
    requires
        0 < shares.len(),
        total <= usize::MAX,
        forall|k: int|
            0 <= k < shares.len() ==> is_share(
                #[trigger] shares[k],
                k,
                shares.len() as int,
                total as int,
                total as int,
            ),
    ensures
        sum_up(
            |w: int| sum_up(|i: int| f(shares[w][i] as int), shares[w].len()),
            shares.len(),
        ) == sum_up(f, total),
{
    let n = shares.len() as int;
    let t = total as int;
    let cell = |w: int, gi: int|
        if owner(gi, n, t) == w {
            f(gi)
        } else {
            Multiset::<V>::empty()
        };
    let by_share = |w: int| sum_up(|i: int| f(shares[w][i] as int), shares[w].len());
    let rows = |w: int| sum_up(|gi: int| cell(w, gi), total);
    assert forall|w: int| 0 <= w < n implies #[trigger] by_share(w) == rows(w) by {
        assert(is_share(shares[w], w, n, t, t));
        lemma_share_sum(shares[w], w, n, total, t, f);
        let one = |gi: int|
            if owner(gi, n, t) == w {
                f(gi)
            } else {
                Multiset::<V>::empty()
            };
        let other = |gi: int| cell(w, gi);
        lemma_sum_same(one, other, total);
    }
    lemma_sum_same(by_share, rows, shares.len());
    lemma_sum_swap(cell, shares.len(), total);
    let cols = |gi: int| sum_up(|w: int| cell(w, gi), shares.len());
    assert forall|gi: int| 0 <= gi < total implies #[trigger] cols(gi) == f(gi) by {
        every_slot_is_dealt_once(shares, t, gi as usize);
        let col = |w: int| cell(w, gi);
        lemma_sum_one(col, shares.len(), owner(gi, n, t));
    }
    lemma_sum_same(cols, f, total);
}

// --- what is handed on -------------------------------------------------------

/// The numbers of a training row.
pub type RowView = (Seq<Real32>, Seq<Real32>, Real32);

/// A training row as a mathematical value.
pub open spec fn row_view(r: Row) -> RowView {
    (r.state@, r.pi@, r.z)
}

/// Training rows as mathematical values.
pub open spec fn rows_view(rows: Seq<Row>) -> Seq<RowView> {
    Seq::new(rows.len(), |k: int| row_view(rows[k]))
}

/// The identifier of a game and its rows.
pub type GameView = (u64, Seq<RowView>);

/// A game that is over as a mathematical value.
pub open spec fn game_view(f: FinishedGame) -> GameView {
    (f.game_uid, rows_view(f.rows@))
}

/// Games that are over as mathematical values.
pub open spec fn games_view(fs: Seq<FinishedGame>) -> Seq<GameView> {
    Seq::new(fs.len(), |k: int| game_view(fs[k]))
}

/// The game that a slot ended, if it did.
pub open spec fn game_told(end: Option<FinishedGame>) -> Multiset<GameView> {
    match end {
        Some(f) => Multiset::singleton(game_view(f)),
        None => Multiset::empty(),
    }
}

/// The rows of the game that a slot ended, if it did.
pub open spec fn rows_told(end: Option<FinishedGame>) -> Multiset<RowView> {
    match end {
        Some(f) => rows_view(f.rows@).to_multiset(),
        None => Multiset::empty(),
    }
}

/// A worker's run: its share, the states it goes through, the ends of games that each round
/// tells, and the network that it asks.
pub struct WorkerRun<E> {
    pub share: Seq<usize>,
    pub states: Seq<Shard>,
    pub ends: Seq<Seq<Option<FinishedGame>>>,
    pub net: E,
}

/// The games that a worker hands on in round `r`.
pub open spec fn handed_on<E>(run: WorkerRun<E>, r: int) -> Seq<FinishedGame> {
    ended(run.ends[r], run.ends[r].len())
}

/// All games that a worker hands on.
pub open spec fn games_of<E>(run: WorkerRun<E>) -> Multiset<GameView> {
    sum_up(|r: int| games_view(handed_on(run, r)).to_multiset(), run.ends.len())
}

/// All rows that a worker hands on, as the consumer takes them in.
pub open spec fn rows_from<E>(run: WorkerRun<E>) -> Multiset<RowView> {
    sum_up(
        |r: int|
            rows_view(
                finished_rows_of(handed_on(run, r), handed_on(run, r).len()),
            ).to_multiset(),
        run.ends.len(),
    )
}

/// All games that the workers of a run hand on.
pub open spec fn all_games<E>(workers: Seq<WorkerRun<E>>) -> Multiset<GameView> {
    sum_up(|w: int| games_of(workers[w]), workers.len())
}

/// All rows that the workers of a run hand on.
pub open spec fn all_rows<E>(workers: Seq<WorkerRun<E>>) -> Multiset<RowView> {
    sum_up(|w: int| rows_from(workers[w]), workers.len())
}

/// The `w`-th worker runs its share to the end.
pub open spec fn runs_to_the_end<A: Arithmetic, T: Table, E: Evaluator>(
    workers: Seq<WorkerRun<E>>,
    w: int,
    n_games: nat,
    config: RunConfig,
    arith: A,
    table: T,
) -> bool {
    let run = workers[w];
    &&& is_share(run.share, w, workers.len() as int, n_games as int, n_games as int)
    &&& shard_run(run.states, run.ends, run.share, config, arith, table, run.net)
    &&& forall|i: int|
        0 <= i < run.share.len() ==> (#[trigger] run.states.last().games@[i]).done
}

/// A whole run: the slots are dealt out to the workers, and each runs its share to the end.
pub open spec fn is_whole_run<A: Arithmetic, T: Table, E: Evaluator>(
    workers: Seq<WorkerRun<E>>,
    n_games: nat,
    config: RunConfig,
    arith: A,
    table: T,
) -> bool {
    &&& 0 < workers.len()
    &&& n_games <= usize::MAX
    &&& forall|w: int|
        0 <= w < workers.len() ==> #[trigger] runs_to_the_end(
            workers,
            w,
            n_games,
            config,
            arith,
            table,
        )
}

proof fn lemma_games_told(ends: Seq<Option<FinishedGame>>, n: nat)
    requires
        n <= ends.len(),
    ensures
        games_view(ended(ends, n)).to_multiset() == sum_up(|i: int| game_told(ends[i]), n),
    decreases n,
{
    broadcast use vstd::seq_lib::group_to_multiset_ensures;

    let told = |i: int| game_told(ends[i]);
    if n == 0 {
        assert(games_view(ended(ends, 0)) =~= Seq::<GameView>::empty());
        assert(games_view(ended(ends, 0)).to_multiset() =~= sum_up(told, 0));
    } else {
        let m = (n - 1) as nat;
        lemma_games_told(ends, m);
        let front = games_view(ended(ends, m));
        assert(told(m as int) == game_told(ends[m as int]));
        match ends[m as int] {
            Some(f) => {
                assert(games_view(ended(ends, n)) =~= front.push(game_view(f)));
                assert(front.push(game_view(f)).to_multiset() =~= front.to_multiset().add(
                    Multiset::singleton(game_view(f)),
                ));
            },
            None => {
                assert(sum_up(told, n) =~= sum_up(told, m));
            },
        }
    }
}

proof fn lemma_rows_prefix(fs: Seq<FinishedGame>, f: FinishedGame, n: nat)
    requires
        n <= fs.len(),
    ensures
        finished_rows_of(fs.push(f), n) == finished_rows_of(fs, n),
    decreases n,
{
    if n > 0 {
        lemma_rows_prefix(fs, f, (n - 1) as nat);
    }
}

proof fn lemma_rows_told(ends: Seq<Option<FinishedGame>>, n: nat)
    requires
        n <= ends.len(),
    ensures
        rows_view(
            finished_rows_of(ended(ends, n), ended(ends, n).len()),
        ).to_multiset() == sum_up(|i: int| rows_told(ends[i]), n),
    decreases n,
{
    broadcast use vstd::seq_lib::group_to_multiset_ensures;

    let told = |i: int| rows_told(ends[i]);
    let all = finished_rows_of(ended(ends, n), ended(ends, n).len());
    if n == 0 {
        assert(rows_view(all) =~= Seq::<RowView>::empty());
        assert(rows_view(all).to_multiset() =~= sum_up(told, 0));
    } else {
        let m = (n - 1) as nat;
        lemma_rows_told(ends, m);
        let fs = ended(ends, m);
        let front = finished_rows_of(fs, fs.len());
        assert(told(m as int) == rows_told(ends[m as int]));
        match ends[m as int] {
            Some(f) => {
                lemma_rows_prefix(fs, f, fs.len());
                assert(all == front + f.rows@);
                assert(rows_view(all) =~= rows_view(front) + rows_view(f.rows@));
                vstd::seq_lib::lemma_multiset_commutative(rows_view(front), rows_view(f.rows@));
            },
            None => {
                assert(sum_up(told, n) =~= sum_up(told, m));
            },
        }
    }
}

/// What the slot at place `i` of a share tells in a whole run.
spec fn slot_told<V, E>(
    run: WorkerRun<E>,
    told: spec_fn(Option<FinishedGame>) -> Multiset<V>,
    i: int,
) -> Multiset<V> {
    sum_up(|r: int| told(run.ends[r][i]), run.ends.len())
}

/// What a worker tells round by round is what its slots tell one by one.
proof fn lemma_worker_by_slots<V, E>(
    run: WorkerRun<E>,
    told: spec_fn(Option<FinishedGame>) -> Multiset<V>,
    by_round: spec_fn(int) -> Multiset<V>,
)
    requires
        forall|r: int|
            0 <= r < run.ends.len() ==> #[trigger] by_round(r) == sum_up(
                |i: int| told(run.ends[r][i]),
                run.share.len(),
            ),
    ensures
        sum_up(by_round, run.ends.len()) == sum_up(
            |i: int| slot_told(run, told, i),
            run.share.len(),
        ),
{
    let cell = |r: int, i: int| told(run.ends[r][i]);
    let rows = |r: int| sum_up(|i: int| cell(r, i), run.share.len());
    let cols = |i: int| sum_up(|r: int| cell(r, i), run.ends.len());
    let slots = |i: int| slot_told(run, told, i);
    assert forall|r: int| 0 <= r < run.ends.len() implies #[trigger] by_round(r) == rows(r) by {
        lemma_sum_same(|i: int| told(run.ends[r][i]), |i: int| cell(r, i), run.share.len());
    }
    lemma_sum_same(by_round, rows, run.ends.len());
    lemma_sum_swap(cell, run.ends.len(), run.share.len());
    assert forall|i: int| 0 <= i < run.share.len() implies #[trigger] cols(i) == slots(i) by {
        lemma_sum_same(|r: int| cell(r, i), |r: int| told(run.ends[r][i]), run.ends.len());
    }
    lemma_sum_same(cols, slots, run.share.len());
}

/// Place of a slot in a share.
spec fn place_in(share: Seq<usize>, gi: int) -> int {
    choose|i: int| 0 <= i < share.len() && share[i] == gi
}

/// What slot `gi` tells in a whole run, wherever it was dealt to.
spec fn told_by<V, E>(
    workers: Seq<WorkerRun<E>>,
    n_games: nat,
    told: spec_fn(Option<FinishedGame>) -> Multiset<V>,
    gi: int,
) -> Multiset<V> {
    let run = workers[owner(gi, workers.len() as int, n_games as int)];
    slot_told(run, told, place_in(run.share, gi))
}

/// Where slot `gi` was dealt to.
proof fn lemma_home<A: Arithmetic, T: Table, E: Evaluator>(
    workers: Seq<WorkerRun<E>>,
    n_games: nat,
    config: RunConfig,
    arith: A,
    table: T,
    gi: int,
)
    requires
        is_whole_run(workers, n_games, config, arith, table),
        0 <= gi < n_games,
    ensures
        ({
            let w = owner(gi, workers.len() as int, n_games as int);
            let share = workers[w].share;
            let i = place_in(share, gi);
            &&& 0 <= w < workers.len()
            &&& 0 <= i < share.len()
            &&& share[i] == gi
        }),
{
    let shares = Seq::new(workers.len(), |w: int| workers[w].share);
    assert forall|w: int| 0 <= w < shares.len() implies is_share(
        #[trigger] shares[w],
        w,
        shares.len() as int,
        n_games as int,
        n_games as int,
    ) by {
        assert(runs_to_the_end(workers, w, n_games, config, arith, table));
    }
    every_slot_is_dealt_once(shares, n_games as int, gi as usize);
    let w = owner(gi, workers.len() as int, n_games as int);
    assert(shares[w].contains(gi as usize));
    let i = choose|i: int| 0 <= i < shares[w].len() && shares[w][i] == gi as usize;
    assert(workers[w].share[i] == gi);
}

/// What all workers tell is what all slots tell.
proof fn lemma_whole_by_slots<V, A: Arithmetic, T: Table, E: Evaluator>(
    workers: Seq<WorkerRun<E>>,
    n_games: nat,
    config: RunConfig,
    arith: A,
    table: T,
    told: spec_fn(Option<FinishedGame>) -> Multiset<V>,
    by_worker: spec_fn(int) -> Multiset<V>,
)
    requires
        is_whole_run(workers, n_games, config, arith, table),
        forall|w: int|
            0 <= w < workers.len() ==> #[trigger] by_worker(w) == sum_up(
                |i: int| slot_told(workers[w], told, i),
                workers[w].share.len(),
            ),
    ensures
        sum_up(by_worker, workers.len()) == sum_up(
            |gi: int| told_by(workers, n_games, told, gi),
            n_games,
        ),
{
    let n = workers.len() as int;
    let t = n_games as int;
    let f = |gi: int| told_by(workers, n_games, told, gi);
    let shares = Seq::new(workers.len(), |w: int| workers[w].share);
    assert forall|w: int| 0 <= w < n implies is_share(#[trigger] shares[w], w, n, t, t) by {
        assert(runs_to_the_end(workers, w, n_games, config, arith, table));
    }
    let by_share = |w: int| sum_up(|i: int| f(shares[w][i] as int), shares[w].len());
    assert forall|w: int| 0 <= w < n implies #[trigger] by_worker(w) == by_share(w) by {
        assert(is_share(shares[w], w, n, t, t));
        let mine = |i: int| slot_told(workers[w], told, i);
        let other = |i: int| f(shares[w][i] as int);
        assert forall|i: int| 0 <= i < shares[w].len() implies #[trigger] mine(i) == other(i) by {
            let gi = shares[w][i] as int;
            assert(shares[w][i] < t);
            assert(owner(gi, n, t) == w);
            lemma_home(workers, n_games, config, arith, table, gi);
            let j = place_in(workers[w].share, gi);
            if i < j {
                assert(shares[w][i] < shares[w][j]);
            }
            if j < i {
                assert(shares[w][j] < shares[w][i]);
            }
            assert(i == j);
        }
        lemma_sum_same(mine, other, shares[w].len());
    }
    lemma_sum_same(by_worker, by_share, workers.len());
    lemma_all_shares(shares, n_games, f);
}

/// The games of a whole run, slot by slot.
proof fn lemma_games_by_slots<A: Arithmetic, T: Table, E: Evaluator>(
    workers: Seq<WorkerRun<E>>,
    n_games: nat,
    config: RunConfig,
    arith: A,
    table: T,
)
    requires
        is_whole_run(workers, n_games, config, arith, table),
    ensures
        all_games(workers) == sum_up(
            |gi: int| told_by(workers, n_games, |e: Option<FinishedGame>| game_told(e), gi),
            n_games,
        ),
{
    let told = |e: Option<FinishedGame>| game_told(e);
    let by_worker = |w: int| games_of(workers[w]);
    assert forall|w: int| 0 <= w < workers.len() implies #[trigger] by_worker(w) == sum_up(
        |i: int| slot_told(workers[w], told, i),
        workers[w].share.len(),
    ) by {
        let run = workers[w];
        assert(runs_to_the_end(workers, w, n_games, config, arith, table));
        let by_round = |r: int| games_view(handed_on(run, r)).to_multiset();
        assert forall|r: int| 0 <= r < run.ends.len() implies #[trigger] by_round(r) == sum_up(
            |i: int| told(run.ends[r][i]),
            run.share.len(),
        ) by {
            rounds_tell_every_slot(
                run.states,
                run.ends,
                run.share,
                config,
                arith,
                table,
                run.net,
                r as nat,
            );
            lemma_games_told(run.ends[r], run.ends[r].len());
            lemma_sum_same(
                |i: int| game_told(run.ends[r][i]),
                |i: int| told(run.ends[r][i]),
                run.share.len(),
            );
        }
        lemma_worker_by_slots(run, told, by_round);
    }
    lemma_whole_by_slots(workers, n_games, config, arith, table, told, by_worker);
}

/// The rows of a whole run, slot by slot.
proof fn lemma_rows_by_slots<A: Arithmetic, T: Table, E: Evaluator>(
    workers: Seq<WorkerRun<E>>,
    n_games: nat,
    config: RunConfig,
    arith: A,
    table: T,
)
    requires
        is_whole_run(workers, n_games, config, arith, table),
    ensures
        all_rows(workers) == sum_up(
            |gi: int| told_by(workers, n_games, |e: Option<FinishedGame>| rows_told(e), gi),
            n_games,
        ),
{
    let told = |e: Option<FinishedGame>| rows_told(e);
    let by_worker = |w: int| rows_from(workers[w]);
    assert forall|w: int| 0 <= w < workers.len() implies #[trigger] by_worker(w) == sum_up(
        |i: int| slot_told(workers[w], told, i),
        workers[w].share.len(),
    ) by {
        let run = workers[w];
        assert(runs_to_the_end(workers, w, n_games, config, arith, table));
        let by_round = |r: int|
            rows_view(
                finished_rows_of(handed_on(run, r), handed_on(run, r).len()),
            ).to_multiset();
        assert forall|r: int| 0 <= r < run.ends.len() implies #[trigger] by_round(r) == sum_up(
            |i: int| told(run.ends[r][i]),
            run.share.len(),
        ) by {
            rounds_tell_every_slot(
                run.states,
                run.ends,
                run.share,
                config,
                arith,
                table,
                run.net,
                r as nat,
            );
            lemma_rows_told(run.ends[r], run.ends[r].len());
            lemma_sum_same(
                |i: int| rows_told(run.ends[r][i]),
                |i: int| told(run.ends[r][i]),
                run.share.len(),
            );
        }
        lemma_worker_by_slots(run, told, by_round);
    }
    lemma_whole_by_slots(workers, n_games, config, arith, table, told, by_worker);
}

// --- two runs ----------------------------------------------------------------

/// Two ends of the same game tell the same.
proof fn lemma_same_told(e: Option<FinishedGame>, f: Option<FinishedGame>)
    requires
        same_end(e, f),
    ensures
        game_told(e) == game_told(f),
        rows_told(e) == rows_told(f),
{
    if let (Some(x), Some(y)) = (e, f) {
        assert forall|k: int| 0 <= k < x.rows@.len() implies row_view(x.rows@[k]) == row_view(
            y.rows@[k],
        ) by {
            assert(same_row(x.rows@[k], y.rows@[k]));
        }
        assert(rows_view(x.rows@) =~= rows_view(y.rows@));
    }
}

/// A slot tells the same in two runs, wherever it has its place in each.
proof fn lemma_slot_tells_the_same<V, A: Arithmetic, T: Table, E: Evaluator, F: Evaluator>(
    run: WorkerRun<E>,
    i: int,
    config: RunConfig,
    other: WorkerRun<F>,
    j: int,
    other_config: RunConfig,
    judge: Judge,
    arith: A,
    table: T,
    told: spec_fn(Option<FinishedGame>) -> Multiset<V>,
)
    requires
        arith_repeats(arith),
        table_repeats(table),
        judges_rows(run.net, judge),
        judges_rows(other.net, judge),
        same_play(config, other_config),
        !config.refill,
        shard_run(run.states, run.ends, run.share, config, arith, table, run.net),
        shard_run(other.states, other.ends, other.share, other_config, arith, table, other.net),
        0 <= i < run.share.len(),
        0 <= j < other.share.len(),
        run.share[i] == other.share[j],
        run.states.last().games@[i].done,
        other.states.last().games@[j].done,
        told(None) == Multiset::<V>::empty(),
        forall|e: Option<FinishedGame>, f: Option<FinishedGame>|
            same_end(e, f) ==> #[trigger] told(e) == #[trigger] told(f),
    ensures
        slot_told(run, told, i) == slot_told(other, told, j),
{
    let m: nat = if run.ends.len() <= other.ends.len() {
        run.ends.len()
    } else {
        other.ends.len()
    };
    runs_repeat(
        run.states,
        run.ends,
        run.share,
        config,
        run.net,
        i,
        other.states,
        other.ends,
        other.share,
        other_config,
        other.net,
        j,
        judge,
        arith,
        table,
        m,
    );
    let x = |r: int| told(run.ends[r][i]);
    let y = |r: int| told(other.ends[r][j]);
    assert forall|r: int| 0 <= r < m implies #[trigger] x(r) == y(r) by {
        assert(same_end(run.ends[r][i], other.ends[r][j]));
    }
    lemma_sum_same(x, y, m);
    assert(run.states[m as int].games@[i].done && other.states[m as int].games@[j].done);
    slots_go_their_own_way(
        run.states,
        run.ends,
        run.share,
        i,
        config,
        judge,
        arith,
        table,
        run.net,
    );
    slots_go_their_own_way(
        other.states,
        other.ends,
        other.share,
        j,
        other_config,
        judge,
        arith,
        table,
        other.net,
    );
    assert forall|r: int| m <= r < run.ends.len() implies #[trigger] x(r)
        == Multiset::<V>::empty() by {
        slots_rest_when_done(
            path_of(run.states, i),
            ends_of(run.ends, i),
            run.share[i],
            config,
            judge,
            arith,
            table,
            m,
            r as nat,
        );
        assert(ends_of(run.ends, i)[r] == run.ends[r][i]);
    }
    assert forall|r: int| m <= r < other.ends.len() implies #[trigger] y(r)
        == Multiset::<V>::empty() by {
        slots_rest_when_done(
            path_of(other.states, j),
            ends_of(other.ends, j),
            other.share[j],
            other_config,
            judge,
            arith,
            table,
            m,
            r as nat,
        );
        assert(ends_of(other.ends, j)[r] == other.ends[r][j]);
    }
    lemma_sum_cut(x, m, run.ends.len());
    lemma_sum_cut(y, m, other.ends.len());
}

/// The sums over the slots of two whole runs are the same.
proof fn lemma_slots_tell_the_same<V, A: Arithmetic, T: Table, E: Evaluator, F: Evaluator>(
    workers: Seq<WorkerRun<E>>,
    config: RunConfig,
    others: Seq<WorkerRun<F>>,
    other_config: RunConfig,
    n_games: nat,
    judge: Judge,
    arith: A,
    table: T,
    told: spec_fn(Option<FinishedGame>) -> Multiset<V>,
)
    requires
        arith_repeats(arith),
        table_repeats(table),
        forall|w: int| 0 <= w < workers.len() ==> judges_rows(#[trigger] workers[w].net, judge),
        forall|w: int| 0 <= w < others.len() ==> judges_rows(#[trigger] others[w].net, judge),
        same_play(config, other_config),
        !config.refill,
        is_whole_run(workers, n_games, config, arith, table),
        is_whole_run(others, n_games, other_config, arith, table),
        told(None) == Multiset::<V>::empty(),
        forall|e: Option<FinishedGame>, f: Option<FinishedGame>|
            same_end(e, f) ==> #[trigger] told(e) == #[trigger] told(f),
    ensures
        sum_up(|gi: int| told_by(workers, n_games, told, gi), n_games) == sum_up(
            |gi: int| told_by(others, n_games, told, gi),
            n_games,
        ),
{
    let x = |gi: int| told_by(workers, n_games, told, gi);
    let y = |gi: int| told_by(others, n_games, told, gi);
    assert forall|gi: int| 0 <= gi < n_games implies #[trigger] x(gi) == y(gi) by {
        lemma_home(workers, n_games, config, arith, table, gi);
        lemma_home(others, n_games, other_config, arith, table, gi);
        let v = owner(gi, workers.len() as int, n_games as int);
        let w = owner(gi, others.len() as int, n_games as int);
        assert(runs_to_the_end(workers, v, n_games, config, arith, table));
        assert(runs_to_the_end(others, w, n_games, other_config, arith, table));
        assert(judges_rows(workers[v].net, judge));
        assert(judges_rows(others[w].net, judge));
        lemma_slot_tells_the_same(
            workers[v],
            place_in(workers[v].share, gi),
            config,
            others[w],
            place_in(others[w].share, gi),
            other_config,
            judge,
            arith,
            table,
            told,
        );
    }
    lemma_sum_same(x, y, n_games);
}

/// A slot that runs to its end without refill tells of one game.
proof fn lemma_slot_tells_one<A: Arithmetic, T: Table, E: Evaluator>(
    run: WorkerRun<E>,
    i: int,
    config: RunConfig,
    judge: Judge,
    arith: A,
    table: T,
)
    requires
        judges_rows(run.net, judge),
        !config.refill,
        shard_run(run.states, run.ends, run.share, config, arith, table, run.net),
        0 <= i < run.share.len(),
        run.states.last().games@[i].done,
    ensures
        slot_told(run, |e: Option<FinishedGame>| game_told(e), i).len() == 1,
{
    slots_go_their_own_way(
        run.states,
        run.ends,
        run.share,
        i,
        config,
        judge,
        arith,
        table,
        run.net,
    );
    let n = run.ends.len();
    slots_end_one_game(
        path_of(run.states, i),
        ends_of(run.ends, i),
        run.share[i],
        config,
        judge,
        arith,
        table,
        n,
    );
    lemma_told_counts(run, i, n);
}

proof fn lemma_told_counts<E>(run: WorkerRun<E>, i: int, n: nat)
    requires
        n <= run.ends.len(),
    ensures
        sum_up(|r: int| (|e: Option<FinishedGame>| game_told(e))(run.ends[r][i]), n).len()
            == ends_in(ends_of(run.ends, i), n),
    decreases n,
{
    let f = |r: int| (|e: Option<FinishedGame>| game_told(e))(run.ends[r][i]);
    if n > 0 {
        lemma_told_counts(run, i, (n - 1) as nat);
        assert(f(n - 1) == game_told(run.ends[n - 1][i]));
        assert(ends_of(run.ends, i)[n - 1] == run.ends[n - 1][i]);
    }
}

/// How many workers there are, how they are scheduled and how large the batches are changes
/// nothing of what a run without refill hands on. Take two whole runs of the same number of
/// games, with networks that judge each position by itself and alike. Both hand on the same games
/// and the same rows, each as often, and as many games as there are slots.
pub proof fn whole_runs_repeat<A: Arithmetic, T: Table, E: Evaluator, F: Evaluator>(
    workers: Seq<WorkerRun<E>>,
    config: RunConfig,
    others: Seq<WorkerRun<F>>,
    other_config: RunConfig,
    n_games: nat,
    judge: Judge,
    arith: A,
    table: T,
)
    requires
        arith_repeats(arith),
        table_repeats(table),
        forall|w: int| 0 <= w < workers.len() ==> judges_rows(#[trigger] workers[w].net, judge),
        forall|w: int| 0 <= w < others.len() ==> judges_rows(#[trigger] others[w].net, judge),
        same_play(config, other_config),
        !config.refill,
        is_whole_run(workers, n_games, config, arith, table),
        is_whole_run(others, n_games, other_config, arith, table),
    ensures
        all_rows(workers) == all_rows(others),
        all_games(workers) == all_games(others),
        all_games(workers).len() == n_games,
{
    let games = |e: Option<FinishedGame>| game_told(e);
    let rows = |e: Option<FinishedGame>| rows_told(e);
    assert forall|e: Option<FinishedGame>, f: Option<FinishedGame>| same_end(
        e,
        f,
    ) implies #[trigger] games(e) == #[trigger] games(f) by {
        lemma_same_told(e, f);
    }
    assert forall|e: Option<FinishedGame>, f: Option<FinishedGame>| same_end(
        e,
        f,
    ) implies #[trigger] rows(e) == #[trigger] rows(f) by {
        lemma_same_told(e, f);
    }
    lemma_games_by_slots(workers, n_games, config, arith, table);
    lemma_games_by_slots(others, n_games, other_config, arith, table);
    lemma_rows_by_slots(workers, n_games, config, arith, table);
    lemma_rows_by_slots(others, n_games, other_config, arith, table);
    lemma_slots_tell_the_same(
        workers,
        config,
        others,
        other_config,
        n_games,
        judge,
        arith,
        table,
        games,
    );
    lemma_slots_tell_the_same(
        workers,
        config,
        others,
        other_config,
        n_games,
        judge,
        arith,
        table,
        rows,
    );
    let each = |gi: int| told_by(workers, n_games, games, gi);
    assert forall|gi: int| 0 <= gi < n_games implies (#[trigger] each(gi)).len() == 1 by {
        lemma_home(workers, n_games, config, arith, table, gi);
        let w = owner(gi, workers.len() as int, n_games as int);
        assert(runs_to_the_end(workers, w, n_games, config, arith, table));
        assert(judges_rows(workers[w].net, judge));
        lemma_slot_tells_one(
            workers[w],
            place_in(workers[w].share, gi),
            config,
            judge,
            arith,
            table,
        );
    }
    lemma_sum_len(each, n_games);
}

} // verus!

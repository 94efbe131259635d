//! Games dealt out to workers, each of which searches and plays its own share, and the
//! consumer that puts their positions together into large batches.

use crate::arith::{answers_fit, softmax_fits, table_wf, Arithmetic, Evaluator, Table};
use crate::batch::{
    games_do_not_mix, games_live, games_wf, gets_root_noise, halts, judges_rows, roots_alone,
    run_cycle, same_but_tree, searches, searches_alone, searching_keeps_the_number, sims_alone_at,
    visits_grow, Halt, Judge,
};
use crate::counting::roots_count_simulations;
use crate::engine::is_new_game;
use crate::game::{
    finalize_rows, game_wf, is_live, moves_on, rows_wf, step_move, Game, Row, MAX_PLIES,
};
use crate::inflight::rows_of;
use crate::seeds::{game_uid, seed_of_slot, slot_seed, uid_of};
use crate::tree::{bushy, nodes, visits_within};
use vstd::prelude::*;

verus! {

// --- dealing out slots -------------------------------------------------------

/// Which of `n` shares slot `gi` of `total` goes to.
pub open spec fn owner(gi: int, n: int, total: int) -> int {
    gi * n / total
}

/// How many shares there are: no more than slots, and at least one.
pub open spec fn share_count(n_threads: int, n_games: int) -> int {
    let n = if n_threads < n_games {
        n_threads
    } else {
        n_games
    };
    if n > 1 {
        n
    } else {
        1
    }
}

/// Share `k` holds the slots that belong to it, in order.
pub open spec fn is_share(share: Seq<usize>, k: int, n: int, upto: int, total: int) -> bool {
    &&& forall|j: int|
        0 <= j < share.len() ==> (#[trigger] share[j]) < upto && owner(share[j] as int, n, total)
            == k
    &&& forall|i: int, j: int| 0 <= i < j < share.len() ==> #[trigger] share[i] < #[trigger] share[j]
    &&& forall|gi: int|
        0 <= gi < upto && #[trigger] owner(gi, n, total) == k ==> share.contains(gi as usize)
}

proof fn lemma_owner(gi: int, n: int, total: int)
    requires
        0 <= gi < total,
        0 < n,
    ensures
        0 <= owner(gi, n, total) < n,
{
    assert(0 <= gi * n / total < n) by (nonlinear_arith)
        requires
            0 <= gi < total,
            0 < n,
    ;
}

/// Every share gets a slot when there are no more shares than slots.
pub proof fn no_share_is_empty(k: int, n: int, total: int) -> (gi: int)
    requires
        0 <= k < n <= total,
    ensures
        0 <= gi < total,
        owner(gi, n, total) == k,
{
    let gi = (k * total + n - 1) / n;
    vstd::arithmetic::div_mod::lemma_fundamental_div_mod(k * total + n - 1, n);
    let rest = (k * total + n - 1) % n;
    assert(gi * n + rest == k * total + n - 1) by (nonlinear_arith)
        requires
            k * total + n - 1 == n * gi + rest,
    ;
    assert(k * total <= gi * n <= k * total + n - 1);
    assert(0 <= k * total) by (nonlinear_arith)
        requires
            0 <= k,
            0 < total,
    ;
    assert(gi * n / total == k) by (nonlinear_arith)
        requires
            k * total <= gi * n < k * total + total,
            0 < total,
    ;
    assert(0 <= gi) by (nonlinear_arith)
        requires
            0 <= gi * n,
            0 < n,
    ;
    assert(gi < total) by (nonlinear_arith)
        requires
            gi * n <= k * total + n - 1,
            k + 1 <= n,
            0 < n <= total,
    ;
    gi
}

/// Every slot is dealt to exactly one worker.
pub proof fn every_slot_is_dealt_once(shares: Seq<Seq<usize>>, total: int, gi: usize)
    requires
        0 <= gi < total,
        shares.len() > 0,
        forall|k: int|
            0 <= k < shares.len() ==> is_share(
                #[trigger] shares[k],
                k,
                shares.len() as int,
                total,
                total,
            ),
    ensures
        0 <= owner(gi as int, shares.len() as int, total) < shares.len(),
        shares[owner(gi as int, shares.len() as int, total)].contains(gi),
        forall|k: int|
            0 <= k < shares.len() && (#[trigger] shares[k]).contains(gi) ==> k == owner(
                gi as int,
                shares.len() as int,
                total,
            ),
{
    let n = shares.len() as int;
    lemma_owner(gi as int, n, total);
    let mine = owner(gi as int, n, total);
    assert(is_share(shares[mine], mine, n, total, total));
    assert forall|k: int| 0 <= k < n && (#[trigger] shares[k]).contains(gi) implies k == mine by {
        let j = choose|j: int| 0 <= j < shares[k].len() && shares[k][j] == gi;
        assert(is_share(shares[k], k, n, total, total));
        assert(owner(shares[k][j] as int, n, total) == k);
    }
}

/// Deals slots out to workers: contiguous shares of about the same size, and none of them
/// empty.
pub fn deal_slots(n_games: usize, n_threads: usize) -> (shares: Vec<Vec<usize>>)
    requires
        n_games * share_count(n_threads as int, n_games as int) <= usize::MAX,
    ensures
        n_games == 0 ==> shares@.len() == 0,
        n_games > 0 ==> shares@.len() == share_count(n_threads as int, n_games as int),
        forall|k: int|
            0 <= k < shares@.len() ==> is_share(
                (#[trigger] shares@[k])@,
                k,
                shares@.len() as int,
                n_games as int,
                n_games as int,
            ) && shares@[k]@.len() > 0,
{
    if n_games == 0 {
        return Vec::new();
    }
    let fewer: usize = if n_threads < n_games {
        n_threads
    } else {
        n_games
    };
    let n: usize = if fewer > 1 {
        fewer
    } else {
        1
    };
    let mut shares: Vec<Vec<usize>> = Vec::new();
    while shares.len() < n
        invariant
            shares@.len() <= n,
            forall|k: int| 0 <= k < shares@.len() ==> (#[trigger] shares@[k])@.len() == 0,
        decreases n - shares@.len(),
    {
        shares.push(Vec::new());
    }
    let mut gi: usize = 0;
    while gi < n_games
        invariant
            0 <= gi <= n_games,
            0 < n <= n_games,
            n_games * n <= usize::MAX,
            shares@.len() == n,
            forall|k: int|
                0 <= k < n ==> is_share(
                    (#[trigger] shares@[k])@,
                    k,
                    n as int,
                    gi as int,
                    n_games as int,
                ),
        decreases n_games - gi,
    {
        proof {
            lemma_owner(gi as int, n as int, n_games as int);
            assert(gi * n <= n_games * n) by (nonlinear_arith)
                requires
                    gi <= n_games,
                    0 <= n,
            ;
        }
        let w: usize = gi * n / n_games;
        let ghost before = shares@;
        let ghost mine = shares@[w as int]@;
        shares[w].push(gi);
        proof {
            assert forall|k: int| 0 <= k < n implies is_share(
                (#[trigger] shares@[k])@,
                k,
                n as int,
                gi + 1,
                n_games as int,
            ) by {
                assert(is_share(before[k]@, k, n as int, gi as int, n_games as int));
                if k == w {
                    let now = shares@[k]@;
                    assert(now == mine.push(gi));
                    assert forall|j: int| 0 <= j < now.len() implies (#[trigger] now[j]) < gi + 1
                        && owner(now[j] as int, n as int, n_games as int) == k by {
                        if j < mine.len() {
                            assert(now[j] == mine[j]);
                        }
                    }
                    assert forall|i: int, j: int| 0 <= i < j < now.len() implies #[trigger] now[i]
                        < #[trigger] now[j] by {
                        assert(now[i] == mine[i]);
                        if j < mine.len() {
                            assert(now[j] == mine[j]);
                        }
                    }
                    assert forall|x: int|
                        0 <= x < gi + 1 && #[trigger] owner(x, n as int, n_games as int)
                            == k implies now.contains(x as usize) by {
                        if x < gi {
                            let j = choose|j: int| 0 <= j < mine.len() && mine[j] == x as usize;
                            assert(now[j] == x as usize);
                        } else {
                            assert(now[mine.len() as int] == x as usize);
                        }
                    }
                } else {
                    assert(shares@[k] == before[k]);
                }
            }
        }
        gi += 1;
    }
    proof {
        assert forall|k: int| 0 <= k < n implies (#[trigger] shares@[k])@.len() > 0 by {
            let x = no_share_is_empty(k, n as int, n_games as int);
            assert(shares@[k]@.contains(x as usize));
        }
    }
    shares
}

// --- a worker's share --------------------------------------------------------

/// How a run is set up.
pub struct RunConfig {
    /// Simulations per move.
    pub sims: usize,
    pub add_root_noise: bool,
    /// Whether a game that is over makes room for a new one.
    pub refill: bool,
    pub master_seed: u64,
    /// Rows after which no more positions are put into a batch.
    pub max_batch: usize,
}

/// The visit counts of a whole game fit in a node, with those of one more search.
pub open spec fn run_wf(config: RunConfig) -> bool {
    config.sims * (MAX_PLIES + 1) <= u32::MAX
}

/// A place for games, one after the other.
#[derive(Clone, Copy, PartialEq, Eq, Structural, Debug)]
pub struct Slot {
    /// Seed of the random numbers of the game that is being played.
    pub seed: u64,
    pub global_index: usize,
    /// How many games were played before.
    pub generation: u32,
}

impl Slot {
    /// The slot for the `generation`-th game.
    pub fn fresh(master_seed: u64, global_index: usize, generation: u32) -> (slot: Self)
        ensures
            slot == (Slot {
                seed: seed_of_slot(master_seed, global_index as u64, generation),
                global_index,
                generation,
            }),
    {
        Slot { seed: slot_seed(master_seed, global_index, generation), global_index, generation }
    }
}

/// The share of one worker.
pub struct Shard {
    pub games: Vec<Game>,
    /// The seat of each game at the table: the identifier of the game.
    pub seats: Vec<u64>,
    pub slots: Vec<Slot>,
}

/// A game that is over.
pub struct FinishedGame {
    pub game_uid: u64,
    pub rows: Vec<Row>,
}

/// Most visits that a node of the game can have.
pub open spec fn visit_cap(g: Game, sims: int) -> int {
    if g.done {
        MAX_PLIES * sims
    } else {
        g.history@.len() * sims
    }
}

/// The seat of the game that is being played in a slot.
pub open spec fn seat_of(slot: Slot) -> u64 {
    uid_of(slot.global_index as u64, slot.generation)
}

/// Everything about a share fits together.
pub open spec fn shard_wf(s: Shard, config: RunConfig) -> bool {
    &&& s.seats@.len() == s.games@.len()
    &&& s.slots@.len() == s.games@.len()
    &&& forall|i: int|
        0 <= i < s.games@.len() ==> #[trigger] s.seats@[i] == seat_of(s.slots@[i])
    &&& forall|i: int|
        0 <= i < s.games@.len() ==> (#[trigger] s.slots@[i]).seed == seed_of_slot(
            config.master_seed,
            s.slots@[i].global_index as u64,
            s.slots@[i].generation,
        )
    &&& games_wf(s.games@)
    &&& games_live(s.games@)
    &&& forall|i: int|
        0 <= i < s.games@.len() ==> visits_within(
            nodes((#[trigger] s.games@[i]).arena@),
            visit_cap(s.games@[i], config.sims as int),
        )
}

proof fn lemma_fresh_fits(g: Game, sims: int)
    requires
        is_new_game(g, g.position),
        g.position.outcome is None,
        0 <= sims,
    ensures
        is_live(g),
        bushy(nodes(g.arena@)),
        visits_within(nodes(g.arena@), visit_cap(g, sims)),
{
    assert(0 * sims == 0);
}

/// What becomes of one game when its turn to move has come.
pub open spec fn slot_steps<A: Arithmetic, T: Table>(
    before: Game,
    after: Game,
    slot: Slot,
    slot_after: Slot,
    end: Option<FinishedGame>,
    config: RunConfig,
    arith: A,
    table: T,
) -> bool {
    if before.done {
        after == before && slot_after == slot && end is None
    } else {
        exists|mid: Game| #[trigger]
            moves_on(before, mid, arith, table, seat_of(slot)) && if mid.done {
                &&& end matches Some(f) && f.game_uid == seat_of(slot) && rows_of(mid, f.rows@)
                &&& if config.refill {
                    &&& is_new_game(after, after.position)
                    &&& call_ensures(
                        T::start,
                        (&table, seat_of(slot_after), Some(slot_after.seed)),
                        after.position,
                    )
                    &&& slot_after == (Slot {
                        seed: seed_of_slot(
                            config.master_seed,
                            slot.global_index as u64,
                            (slot.generation + 1) as u32,
                        ),
                        global_index: slot.global_index,
                        generation: (slot.generation + 1) as u32,
                    })
                } else {
                    &&& after == (Game { history: after.history, ..mid })
                    &&& after.history@.len() == 0
                    &&& slot_after == slot
                }
            } else {
                after == mid && slot_after == slot && end is None
            }
    }
}

/// The games that are over, in order.
pub open spec fn ended(ends: Seq<Option<FinishedGame>>, n: nat) -> Seq<FinishedGame>
    decreases n,
{
    if n == 0 {
        Seq::empty()
    } else {
        match ends[n - 1] {
            Some(f) => ended(ends, (n - 1) as nat).push(f),
            None => ended(ends, (n - 1) as nat),
        }
    }
}

proof fn lemma_ended(ends: Seq<Option<FinishedGame>>, more: Option<FinishedGame>, n: nat)
    requires
        n <= ends.len(),
    ensures
        ended(ends.push(more), n) == ended(ends, n),
    decreases n,
{
    if n > 0 {
        lemma_ended(ends, more, (n - 1) as nat);
    }
}

/// Every game of the share plays its move.
pub open spec fn shard_steps<A: Arithmetic, T: Table>(
    games: Seq<Game>,
    before: Shard,
    after: Shard,
    ends: Seq<Option<FinishedGame>>,
    config: RunConfig,
    arith: A,
    table: T,
) -> bool {
    &&& after.games@.len() == games.len()
    &&& after.slots@.len() == games.len()
    &&& after.seats@.len() == games.len()
    &&& forall|i: int|
        0 <= i < games.len() ==> #[trigger] after.seats@[i] == seat_of(after.slots@[i])
    &&& ends.len() == games.len()
    &&& forall|i: int|
        0 <= i < games.len() ==> slot_steps(
            games[i],
            #[trigger] after.games@[i],
            before.slots@[i],
            after.slots@[i],
            ends[i],
            config,
            arith,
            table,
        )
}

/// The slot `gi` before its first game.
pub open spec fn first_slot(config: RunConfig, gi: usize) -> Slot {
    Slot {
        seed: seed_of_slot(config.master_seed, gi as u64, 0),
        global_index: gi,
        generation: 0,
    }
}

/// A share at its start: a new game in each of the given slots.
pub open spec fn is_new_shard<T: Table>(
    s: Shard,
    share: Seq<usize>,
    config: RunConfig,
    table: T,
) -> bool {
    &&& shard_wf(s, config)
    &&& s.games@.len() == share.len()
    &&& forall|i: int| 0 <= i < share.len() ==> (#[trigger] s.slots@[i]) == first_slot(
        config,
        share[i],
    )
    &&& forall|i: int|
        0 <= i < share.len() ==> is_new_game(#[trigger] s.games@[i], s.games@[i].position)
            && call_ensures(
            T::start,
            (&table, seat_of(s.slots@[i]), Some(s.slots@[i].seed)),
            s.games@[i].position,
        )
}

/// A worker's round leads from `before` to `after`: all games are searched, and then each
/// plays its move; `ends` tells which games are over.
pub open spec fn shard_round<A: Arithmetic, T: Table, E: Evaluator>(
    before: Shard,
    after: Shard,
    ends: Seq<Option<FinishedGame>>,
    config: RunConfig,
    arith: A,
    table: T,
    net: E,
) -> bool {
    exists|mid: Seq<Game>| #[trigger]
        searches(
            before.games@,
            mid,
            before.seats@,
            config.sims as int,
            config.add_root_noise,
            arith,
            table,
            net,
        ) && shard_steps(mid, before, after, ends, config, arith, table)
}

impl Shard {
    /// New games in the given slots.
    pub fn new<T: Table>(share: &Vec<usize>, config: &RunConfig, table: &T) -> (s: Self)
        requires
            table_wf(*table),
        ensures
            is_new_shard(s, share@, *config, *table),
    {
        let mut s = Shard { games: Vec::new(), seats: Vec::new(), slots: Vec::new() };
        let mut i: usize = 0;
        while i < share.len()
            invariant
                0 <= i <= share@.len(),
                table_wf(*table),
                shard_wf(s, *config),
                s.games@.len() == i,
                forall|k: int|
                    0 <= k < i ==> (#[trigger] s.slots@[k]) == first_slot(*config, share@[k]),
                forall|k: int|
                    0 <= k < i ==> is_new_game(#[trigger] s.games@[k], s.games@[k].position)
                        && call_ensures(
                        T::start,
                        (table, seat_of(s.slots@[k]), Some(s.slots@[k].seed)),
                        s.games@[k].position,
                    ),
            decreases share@.len() - i,
        {
            let gi: usize = share[i];
            let ghost before = s;
            let seat: u64 = game_uid(gi, 0);
            let slot = Slot::fresh(config.master_seed, gi, 0);
            let position = table.start(seat, Some(slot.seed));
            let game = Game::from_board(position);
            proof {
                lemma_fresh_fits(game, config.sims as int);
            }
            s.games.push(game);
            s.seats.push(seat);
            s.slots.push(slot);
            proof {
                assert forall|k: int| 0 <= k < s.games@.len() implies game_wf(
                    #[trigger] s.games@[k],
                ) && (!s.games@[k].done ==> is_live(s.games@[k]) && bushy(
                    nodes(s.games@[k].arena@),
                )) && visits_within(
                    nodes(s.games@[k].arena@),
                    visit_cap(s.games@[k], config.sims as int),
                ) by {
                    if k < i {
                        assert(s.games@[k] == before.games@[k]);
                    }
                }
                assert forall|k: int| 0 <= k < s.games@.len() implies #[trigger] s.seats@[k]
                    == seat_of(s.slots@[k]) by {
                    if k < i {
                        assert(before.seats@[k] == seat_of(before.slots@[k]));
                    }
                }
                assert forall|k: int| 0 <= k < s.games@.len() implies (#[trigger] s.slots@[k]).seed
                    == seed_of_slot(
                    config.master_seed,
                    s.slots@[k].global_index as u64,
                    s.slots@[k].generation,
                ) && s.slots@[k] == first_slot(*config, share@[k]) by {
                    if k < i {
                        assert(s.slots@[k] == before.slots@[k]);
                    }
                }
                assert forall|k: int| 0 <= k < i + 1 implies is_new_game(
                    #[trigger] s.games@[k],
                    s.games@[k].position,
                ) && call_ensures(
                    T::start,
                    (table, seat_of(s.slots@[k]), Some(s.slots@[k].seed)),
                    s.games@[k].position,
                ) by {
                    if k < i {
                        assert(s.games@[k] == before.games@[k]);
                    }
                }
            }
            i += 1;
        }
        s
    }

    /// Tells whether every game of the share is over.
    pub fn all_done(&self) -> (done: bool)
        ensures
            done <==> forall|i: int| 0 <= i < self.games@.len() ==> (#[trigger] self.games@[i]).done,
    {
        let mut i: usize = 0;
        while i < self.games.len()
            invariant
                0 <= i <= self.games@.len(),
                forall|k: int| 0 <= k < i ==> (#[trigger] self.games@[k]).done,
            decreases self.games@.len() - i,
        {
            if !self.games[i].done {
                return false;
            }
            i += 1;
        }
        true
    }

    /// Lets game `i` play its move.
    fn step_slot<A: Arithmetic, T: Table>(
        &mut self,
        i: usize,
        config: &RunConfig,
        arith: &A,
        table: &T,
    ) -> (end: Option<FinishedGame>)
        requires
            table_wf(*table),
            i < old(self).games@.len(),
            i < old(self).slots@.len(),
            old(self).seats@.len() == old(self).slots@.len(),
            old(self).seats@[i as int] == seat_of(old(self).slots@[i as int]),
            game_wf(old(self).games@[i as int]),
            !old(self).games@[i as int].done ==> {
                &&& is_live(old(self).games@[i as int])
                &&& bushy(nodes(old(self).games@[i as int].arena@))
                &&& old(self).games@[i as int].arena@[0].expanded
                &&& visits_within(
                    nodes(old(self).games@[i as int].arena@),
                    (old(self).games@[i as int].history@.len() + 1) * config.sims,
                )
            },
            old(self).games@[i as int].done ==> visits_within(
                nodes(old(self).games@[i as int].arena@),
                MAX_PLIES * config.sims,
            ),
            old(self).slots@[i as int].generation < u32::MAX,
        ensures
            final(self).seats@.len() == old(self).seats@.len(),
            final(self).seats@[i as int] == seat_of(final(self).slots@[i as int]),
            forall|k: int|
                0 <= k < old(self).seats@.len() && k != i ==> #[trigger] final(self).seats@[k]
                    == old(self).seats@[k],
            final(self).games@.len() == old(self).games@.len(),
            final(self).slots@.len() == old(self).slots@.len(),
            forall|k: int|
                0 <= k < old(self).games@.len() && k != i ==> #[trigger] final(self).games@[k]
                    == old(self).games@[k],
            forall|k: int|
                0 <= k < old(self).slots@.len() && k != i ==> #[trigger] final(self).slots@[k]
                    == old(self).slots@[k],
            slot_steps(
                old(self).games@[i as int],
                final(self).games@[i as int],
                old(self).slots@[i as int],
                final(self).slots@[i as int],
                end,
                *config,
                *arith,
                *table,
            ),
            ({
                let g = final(self).games@[i as int];
                &&& game_wf(g)
                &&& !g.done ==> is_live(g) && bushy(nodes(g.arena@))
                &&& visits_within(nodes(g.arena@), visit_cap(g, config.sims as int))
            }),
            end matches Some(f) ==> rows_wf(f.rows@),
    {
        if self.games[i].done {
            return None;
        }
        let ghost before = self.games@[i as int];
        let ghost sims = config.sims as int;
        let slot = self.slots[i];
        assert(nodes(before.arena@)[0] == before.arena@[0]@);
        let seat: u64 = self.seats[i];
        step_move(&mut self.games[i], arith, table, seat);
        let ghost mid = self.games@[i as int];
        proof {
            assert(moves_on(before, mid, *arith, *table, seat));
            assert((before.history@.len() + 1) * sims >= 0) by (nonlinear_arith)
                requires
                    sims >= 0,
            ;
            assert((before.history@.len() + 1) * sims <= MAX_PLIES * sims) by (nonlinear_arith)
                requires
                    before.history@.len() + 1 <= MAX_PLIES,
                    sims >= 0,
            ;
        }
        if !self.games[i].done {
            return None;
        }
        let rows = finalize_rows(&mut self.games[i]);
        if config.refill {
            let next: u64 = game_uid(slot.global_index, slot.generation + 1);
            let slot = Slot::fresh(config.master_seed, slot.global_index, slot.generation + 1);
            let position = table.start(next, Some(slot.seed));
            let fresh = Game::from_board(position);
            proof {
                lemma_fresh_fits(fresh, sims);
            }
            self.games.set(i, fresh);
            self.seats.set(i, next);
            self.slots.set(i, slot);
        }
        Some(FinishedGame { game_uid: seat, rows })
    }

    /// A worker's round with its share: searches all games, lets each play its move, and
    /// gives the games that are over.
    pub fn worker_round<A: Arithmetic, T: Table, E: Evaluator>(
        &mut self,
        config: &RunConfig,
        arith: &A,
        table: &T,
        net: &E,
    ) -> (out: Result<Vec<FinishedGame>, Halt>)
        requires
            run_wf(*config),
            shard_wf(*old(self), *config),
            forall|i: int|
                0 <= i < old(self).slots@.len() ==> (#[trigger] old(self).slots@[i]).generation
                    < u32::MAX,
            softmax_fits(*arith),
            table_wf(*table),
            answers_fit(*net),
        ensures
            match out {
                Ok(finished) => {
                    &&& shard_wf(*final(self), *config)
                    &&& exists|ends: Seq<Option<FinishedGame>>| #[trigger]
                        shard_round(
                            *old(self),
                            *final(self),
                            ends,
                            *config,
                            *arith,
                            *table,
                            *net,
                        ) && finished@ == ended(ends, ends.len())
                    &&& forall|k: int|
                        0 <= k < finished@.len() ==> rows_wf((#[trigger] finished@[k]).rows@)
                },
                Err(halt) => {
                    &&& halts(
                        old(self).games@,
                        final(self).games@,
                        old(self).seats@,
                        config.sims as int,
                        config.add_root_noise,
                        halt,
                        *arith,
                        *table,
                        *net,
                    )
                    &&& final(self).slots == old(self).slots
                    &&& final(self).seats == old(self).seats
                },
            },
    {
        let ghost start = *self;
        let ghost sims = config.sims as int;
        proof {
            assert(sims * (MAX_PLIES + 1) == MAX_PLIES * sims + sims) by (nonlinear_arith);
            assert(sims <= u32::MAX) by (nonlinear_arith)
                requires
                    0 <= sims,
                    MAX_PLIES * sims + sims <= u32::MAX,
            ;
            assert forall|i: int| 0 <= i < start.games@.len() implies visits_within(
                #[trigger] nodes(start.games@[i].arena@),
                u32::MAX - sims,
            ) by {
                let g = start.games@[i];
                assert(game_wf(g));
                assert(visits_within(nodes(g.arena@), visit_cap(g, sims)));
                assert(visit_cap(g, sims) <= MAX_PLIES * sims) by (nonlinear_arith)
                    requires
                        visit_cap(g, sims) == MAX_PLIES * sims || visit_cap(g, sims)
                            == g.history@.len() * sims,
                        g.history@.len() <= MAX_PLIES,
                        0 <= sims,
                ;
            }
        }
        if let Err(halt) = run_cycle(
            &mut self.games,
            &self.seats,
            config.sims,
            config.add_root_noise,
            arith,
            table,
            net,
        ) {
            return Err(halt);
        }
        let ghost mid = self.games@;
        proof {
            assert forall|i: int| 0 <= i < mid.len() implies {
                let g = #[trigger] mid[i];
                &&& game_wf(g)
                &&& !g.done ==> visits_within(nodes(g.arena@), (g.history@.len() + 1) * sims)
                &&& g.done ==> visits_within(nodes(g.arena@), MAX_PLIES * sims)
            } by {
                let b = start.games@[i];
                assert(same_but_tree(b, mid[i]));
                assert(visits_grow(b, mid[i], sims));
                assert(visits_within(nodes(b.arena@), visit_cap(b, sims)));
                assert(visit_cap(b, sims) >= 0) by (nonlinear_arith)
                    requires
                        visit_cap(b, sims) == MAX_PLIES * sims || visit_cap(b, sims)
                            == b.history@.len() * sims,
                        0 <= sims,
                ;
                assert(b.history@.len() * sims + sims == (b.history@.len() + 1) * sims)
                    by (nonlinear_arith);
            }
        }
        let mut finished: Vec<FinishedGame> = Vec::new();
        let ghost mut ends: Seq<Option<FinishedGame>> = Seq::empty();
        let mut i: usize = 0;
        while i < self.games.len()
            invariant
                0 <= i <= self.games@.len(),
                start == *old(self),
                shard_wf(start, *config),
                sims == config.sims,
                table_wf(*table),
                mid.len() == start.games@.len(),
                self.games@.len() == mid.len(),
                self.slots@.len() == mid.len(),
                self.seats@.len() == mid.len(),
                forall|k: int|
                    0 <= k < mid.len() ==> #[trigger] self.seats@[k] == seat_of(self.slots@[k]),
                forall|k: int|
                    0 <= k < mid.len() ==> {
                        let g = #[trigger] mid[k];
                        &&& game_wf(g)
                        &&& !g.done ==> visits_within(
                            nodes(g.arena@),
                            (g.history@.len() + 1) * sims,
                        )
                        &&& g.done ==> visits_within(nodes(g.arena@), MAX_PLIES * sims)
                        &&& !g.done ==> g.arena@[0].expanded
                    },
                games_live(mid),
                forall|k: int|
                    0 <= k < start.slots@.len() ==> (#[trigger] start.slots@[k]).generation
                        < u32::MAX,
                forall|k: int| i <= k < mid.len() ==> #[trigger] self.games@[k] == mid[k],
                forall|k: int|
                    i <= k < mid.len() ==> #[trigger] self.slots@[k] == start.slots@[k],
                ends.len() == i,
                forall|k: int|
                    0 <= k < i ==> {
                        let g = #[trigger] self.games@[k];
                        &&& slot_steps(
                            mid[k],
                            g,
                            start.slots@[k],
                            self.slots@[k],
                            ends[k],
                            *config,
                            *arith,
                            *table,
                        )
                        &&& game_wf(g)
                        &&& !g.done ==> is_live(g) && bushy(nodes(g.arena@))
                        &&& visits_within(nodes(g.arena@), visit_cap(g, sims))
                    },
                finished@ == ended(ends, i as nat),
                forall|k: int|
                    0 <= k < finished@.len() ==> rows_wf((#[trigger] finished@[k]).rows@),
            decreases self.games@.len() - i,
        {
            let ghost before = *self;
            assert(before.games@[i as int] == mid[i as int]);
            assert(before.slots@[i as int] == start.slots@[i as int]);
            let end = self.step_slot(i, config, arith, table);
            proof {
                let earlier = ends;
                ends = ends.push(end);
                lemma_ended(earlier, end, i as nat);
                assert forall|k: int| 0 <= k < i + 1 implies {
                    let g = #[trigger] self.games@[k];
                    &&& slot_steps(
                        mid[k],
                        g,
                        start.slots@[k],
                        self.slots@[k],
                        ends[k],
                        *config,
                        *arith,
                        *table,
                    )
                    &&& game_wf(g)
                    &&& !g.done ==> is_live(g) && bushy(nodes(g.arena@))
                    &&& visits_within(nodes(g.arena@), visit_cap(g, sims))
                } by {
                    if k < i {
                        assert(self.games@[k] == before.games@[k]);
                        assert(self.slots@[k] == before.slots@[k]);
                        assert(ends[k] == earlier[k]);
                    }
                }
                assert forall|k: int| i + 1 <= k < mid.len() implies #[trigger] self.games@[k]
                    == mid[k] by {
                    assert(self.games@[k] == before.games@[k]);
                }
                assert forall|k: int| 0 <= k < mid.len() implies #[trigger] self.seats@[k]
                    == seat_of(self.slots@[k]) by {
                    if k != i {
                        assert(self.seats@[k] == before.seats@[k]);
                        assert(self.slots@[k] == before.slots@[k]);
                    }
                }
                assert forall|k: int| i + 1 <= k < mid.len() implies #[trigger] self.slots@[k]
                    == start.slots@[k] by {
                    assert(self.slots@[k] == before.slots@[k]);
                }
            }
            match end {
                Some(f) => {
                    finished.push(f);
                },
                None => {},
            }
            i += 1;
        }
        proof {
            assert(shard_steps(mid, start, *self, ends, *config, *arith, *table));
            assert(shard_round(start, *self, ends, *config, *arith, *table, *net));
            lemma_steps_keep(mid, start, *self, ends, *config, *arith, *table);
        }
        Ok(finished)
    }
}

/// The slots stay in step with their games.
proof fn lemma_steps_keep<A: Arithmetic, T: Table>(
    mid: Seq<Game>,
    before: Shard,
    after: Shard,
    ends: Seq<Option<FinishedGame>>,
    config: RunConfig,
    arith: A,
    table: T,
)
    requires
        shard_wf(before, config),
        mid.len() == before.games@.len(),
        shard_steps(mid, before, after, ends, config, arith, table),
        forall|i: int|
            0 <= i < before.slots@.len() ==> (#[trigger] before.slots@[i]).generation < u32::MAX,
    ensures
        forall|i: int|
            0 <= i < after.games@.len() ==> (#[trigger] after.slots@[i]).seed == seed_of_slot(
                config.master_seed,
                after.slots@[i].global_index as u64,
                after.slots@[i].generation,
            ),
{
    assert forall|i: int| 0 <= i < after.games@.len() implies (#[trigger] after.slots@[i]).seed
        == seed_of_slot(
        config.master_seed,
        after.slots@[i].global_index as u64,
        after.slots@[i].generation,
    ) by {
        assert(slot_steps(
            mid[i],
            after.games@[i],
            before.slots@[i],
            after.slots@[i],
            ends[i],
            config,
            arith,
            table,
        ));
        assert(before.slots@[i].seed == seed_of_slot(
            config.master_seed,
            before.slots@[i].global_index as u64,
            before.slots@[i].generation,
        ));
    }
}

// --- slots do not mix --------------------------------------------------------

/// A round of one slot, as it comes about with no other slot around: its game is searched and
/// plays its move.
pub open spec fn slot_round<A: Arithmetic, T: Table>(
    before: (Game, Slot),
    after: (Game, Slot),
    end: Option<FinishedGame>,
    config: RunConfig,
    judge: Judge,
    arith: A,
    table: T,
) -> bool {
    exists|mid: Game| #[trigger]
        searches_alone(
            before.0,
            mid,
            seat_of(before.1),
            config.sims as int,
            config.add_root_noise,
            judge,
            arith,
            table,
        ) && slot_steps(mid, after.0, before.1, after.1, end, config, arith, table)
}

/// The game and the slot at place `i` of a share.
pub open spec fn slot_at(s: Shard, i: int) -> (Game, Slot) {
    (s.games@[i], s.slots@[i])
}

/// The game at place `i` was searched, and then played its move.
proof fn lemma_searched_slot<A: Arithmetic, T: Table, E: Evaluator>(
    before: Shard,
    mid: Seq<Game>,
    i: int,
    config: RunConfig,
    judge: Judge,
    arith: A,
    table: T,
    net: E,
)
    requires
        searches(
            before.games@,
            mid,
            before.seats@,
            config.sims as int,
            config.add_root_noise,
            arith,
            table,
            net,
        ),
        judges_rows(net, judge),
        0 <= i < before.games@.len(),
        before.seats@[i] == seat_of(before.slots@[i]),
    ensures
        mid.len() == before.games@.len(),
        searches_alone(
            before.games@[i],
            mid[i],
            seat_of(before.slots@[i]),
            config.sims as int,
            config.add_root_noise,
            judge,
            arith,
            table,
        ),
{
    let sims = config.sims as int;
    let noise = config.add_root_noise;
    assert(before.games@.len() == before.games.len());
    games_do_not_mix(before.games@, mid, before.seats@, sims, noise, i, judge, arith, table, net);
    searching_keeps_the_number(before.games@, mid, before.seats@, sims, noise, arith, table, net);
}

/// What becomes of a slot in a worker's round does not depend on the other slots of the share,
/// as long as the network judges each position by itself.
pub proof fn slots_do_not_mix<A: Arithmetic, T: Table, E: Evaluator>(
    before: Shard,
    after: Shard,
    ends: Seq<Option<FinishedGame>>,
    i: int,
    config: RunConfig,
    judge: Judge,
    arith: A,
    table: T,
    net: E,
)
    requires
        shard_wf(before, config),
        shard_round(before, after, ends, config, arith, table, net),
        judges_rows(net, judge),
        0 <= i < before.games@.len(),
    ensures
        slot_round(slot_at(before, i), slot_at(after, i), ends[i], config, judge, arith, table),
        after.games@.len() == before.games@.len(),
{
    let mid = choose|mid: Seq<Game>| #[trigger]
        searches(
            before.games@,
            mid,
            before.seats@,
            config.sims as int,
            config.add_root_noise,
            arith,
            table,
            net,
        ) && shard_steps(mid, before, after, ends, config, arith, table);
    assert(before.seats@[i] == seat_of(before.slots@[i]));
    lemma_searched_slot(before, mid, i, config, judge, arith, table, net);
    let (game, slot) = slot_at(before, i);
    assert(searches_alone(
        game,
        mid[i],
        seat_of(slot),
        config.sims as int,
        config.add_root_noise,
        judge,
        arith,
        table,
    ));
    assert(slot_steps(
        mid[i],
        after.games@[i],
        slot,
        after.slots@[i],
        ends[i],
        config,
        arith,
        table,
    ));
}

/// The `k`-th round of a worker's run.
pub open spec fn shard_round_at<A: Arithmetic, T: Table, E: Evaluator>(
    states: Seq<Shard>,
    ends: Seq<Seq<Option<FinishedGame>>>,
    k: int,
    config: RunConfig,
    arith: A,
    table: T,
    net: E,
) -> bool {
    shard_round(states[k], states[k + 1], ends[k], config, arith, table, net)
}

/// A worker's run: it starts with new games in the slots of its share, and one round follows
/// the other.
pub open spec fn shard_run<A: Arithmetic, T: Table, E: Evaluator>(
    states: Seq<Shard>,
    ends: Seq<Seq<Option<FinishedGame>>>,
    share: Seq<usize>,
    config: RunConfig,
    arith: A,
    table: T,
    net: E,
) -> bool {
    &&& states.len() == ends.len() + 1
    &&& is_new_shard(states[0], share, config, table)
    &&& forall|k: int| 0 <= k < states.len() ==> shard_wf(#[trigger] states[k], config)
    &&& forall|k: int|
        0 <= k < ends.len() ==> #[trigger] shard_round_at(
            states,
            ends,
            k,
            config,
            arith,
            table,
            net,
        )
}

/// The `k`-th round of one slot.
pub open spec fn slot_round_at<A: Arithmetic, T: Table>(
    path: Seq<(Game, Slot)>,
    ends: Seq<Option<FinishedGame>>,
    k: int,
    config: RunConfig,
    judge: Judge,
    arith: A,
    table: T,
) -> bool {
    slot_round(path[k], path[k + 1], ends[k], config, judge, arith, table)
}

/// The way of slot `gi` by itself: it starts with a new game, and one round follows the other.
/// Nothing here tells which share the slot is in.
pub open spec fn slot_run<A: Arithmetic, T: Table>(
    path: Seq<(Game, Slot)>,
    ends: Seq<Option<FinishedGame>>,
    gi: usize,
    config: RunConfig,
    judge: Judge,
    arith: A,
    table: T,
) -> bool {
    &&& path.len() == ends.len() + 1
    &&& path[0].1 == first_slot(config, gi)
    &&& is_new_game(path[0].0, path[0].0.position)
    &&& call_ensures(
        T::start,
        (&table, seat_of(path[0].1), Some(path[0].1.seed)),
        path[0].0.position,
    )
    &&& forall|k: int|
        0 <= k < ends.len() ==> #[trigger] slot_round_at(
            path,
            ends,
            k,
            config,
            judge,
            arith,
            table,
        )
}

/// The way of the slot at place `i` through a worker's run.
pub open spec fn path_of(states: Seq<Shard>, i: int) -> Seq<(Game, Slot)> {
    Seq::new(states.len(), |k: int| slot_at(states[k], i))
}

/// The games that the slot at place `i` ended in a worker's run.
pub open spec fn ends_of(ends: Seq<Seq<Option<FinishedGame>>>, i: int) -> Seq<
    Option<FinishedGame>,
> {
    Seq::new(ends.len(), |k: int| ends[k][i])
}

/// A slot keeps its place in the share, and its game stays well-formed.
pub proof fn shares_stay_well_formed<A: Arithmetic, T: Table, E: Evaluator>(
    states: Seq<Shard>,
    ends: Seq<Seq<Option<FinishedGame>>>,
    share: Seq<usize>,
    i: int,
    config: RunConfig,
    arith: A,
    table: T,
    net: E,
    n: nat,
)
    requires
        shard_run(states, ends, share, config, arith, table, net),
        n < states.len(),
        0 <= i < share.len(),
    ensures
        states[n as int].games@.len() == share.len(),
        game_wf(states[n as int].games@[i]),
    decreases n,
{
    if n > 0 {
        shares_stay_well_formed(states, ends, share, i, config, arith, table, net, (n - 1) as nat);
        assert(shard_round_at(states, ends, n - 1, config, arith, table, net));
        let before = states[n - 1];
        let mid = choose|mid: Seq<Game>| #[trigger]
            searches(
                before.games@,
                mid,
                before.seats@,
                config.sims as int,
                config.add_root_noise,
                arith,
                table,
                net,
            ) && shard_steps(mid, before, states[n as int], ends[n - 1], config, arith, table);
        searching_keeps_the_number(
            before.games@,
            mid,
            before.seats@,
            config.sims as int,
            config.add_root_noise,
            arith,
            table,
            net,
        );
    }
}

/// In a worker's run every slot goes its own way, from the start to the end: the same way that
/// it can go with no other slot around.
pub proof fn slots_go_their_own_way<A: Arithmetic, T: Table, E: Evaluator>(
    states: Seq<Shard>,
    ends: Seq<Seq<Option<FinishedGame>>>,
    share: Seq<usize>,
    i: int,
    config: RunConfig,
    judge: Judge,
    arith: A,
    table: T,
    net: E,
)
    requires
        shard_run(states, ends, share, config, arith, table, net),
        judges_rows(net, judge),
        0 <= i < share.len(),
    ensures
        slot_run(path_of(states, i), ends_of(ends, i), share[i], config, judge, arith, table),
{
    let path = path_of(states, i);
    let mine = ends_of(ends, i);
    assert(states[0].slots@[i] == first_slot(config, share[i]));
    assert(is_new_game(states[0].games@[i], states[0].games@[i].position));
    assert forall|k: int| 0 <= k < mine.len() implies #[trigger] slot_round_at(
        path,
        mine,
        k,
        config,
        judge,
        arith,
        table,
    ) by {
        assert(shard_round_at(states, ends, k, config, arith, table, net));
        shares_stay_well_formed(states, ends, share, i, config, arith, table, net, k as nat);
        slots_do_not_mix(
            states[k],
            states[k + 1],
            ends[k],
            i,
            config,
            judge,
            arith,
            table,
            net,
        );
    }
}

/// How many games the first `n` rounds of a slot ended.
pub open spec fn ends_in(ends: Seq<Option<FinishedGame>>, n: nat) -> nat
    decreases n,
{
    if n == 0 {
        0
    } else {
        ends_in(ends, (n - 1) as nat) + if ends[n - 1] is Some {
            1nat
        } else {
            0
        }
    }
}

proof fn lemma_simulations_end_nothing<A: Arithmetic, T: Table>(
    states: Seq<Game>,
    k: nat,
    n: int,
    seat: u64,
    judge: Judge,
    arith: A,
    table: T,
)
    requires
        k <= n,
        forall|j: int|
            0 <= j < n ==> #[trigger] sims_alone_at(states, j, seat, judge, arith, table),
    ensures
        states[k as int].done == states[0].done,
    decreases k,
{
    if k > 0 {
        lemma_simulations_end_nothing(states, (k - 1) as nat, n, seat, judge, arith, table);
        assert(sims_alone_at(states, k - 1, seat, judge, arith, table));
    }
}

/// Searching does not end a game.
proof fn lemma_searches_end_nothing<A: Arithmetic, T: Table>(
    before: Game,
    after: Game,
    seat: u64,
    n: int,
    noise: bool,
    judge: Judge,
    arith: A,
    table: T,
)
    requires
        searches_alone(before, after, seat, n, noise, judge, arith, table),
        0 <= n,
    ensures
        after.done == before.done,
{
    let (mid, states) = choose|mid: Game, states: Seq<Game>|
        {
            &&& #[trigger] roots_alone(before, mid, judge, arith)
            &&& states.len() == n + 1
            &&& if noise {
                gets_root_noise(mid, #[trigger] states[0], arith, table, seat)
            } else {
                states[0] == mid
            }
            &&& states[n] == after
            &&& forall|k: int|
                0 <= k < n ==> #[trigger] sims_alone_at(states, k, seat, judge, arith, table)
        };
    lemma_simulations_end_nothing(states, n as nat, n, seat, judge, arith, table);
}

/// Without refill a slot ends one game, and no other: none before its game is over, and one
/// from then on.
pub proof fn slots_end_one_game<A: Arithmetic, T: Table>(
    path: Seq<(Game, Slot)>,
    ends: Seq<Option<FinishedGame>>,
    gi: usize,
    config: RunConfig,
    judge: Judge,
    arith: A,
    table: T,
    k: nat,
)
    requires
        slot_run(path, ends, gi, config, judge, arith, table),
        !config.refill,
        k < path.len(),
    ensures
        ends_in(ends, k) == if path[k as int].0.done {
            1nat
        } else {
            0
        },
    decreases k,
{
    if k > 0 {
        slots_end_one_game(path, ends, gi, config, judge, arith, table, (k - 1) as nat);
        assert(slot_round_at(path, ends, k - 1, config, judge, arith, table));
        let (game, slot) = path[k - 1];
        let after = path[k as int];
        let mid = choose|mid: Game| #[trigger]
            searches_alone(
                game,
                mid,
                seat_of(slot),
                config.sims as int,
                config.add_root_noise,
                judge,
                arith,
                table,
            ) && slot_steps(mid, after.0, slot, after.1, ends[k - 1], config, arith, table);
        lemma_searches_end_nothing(
            game,
            mid,
            seat_of(slot),
            config.sims as int,
            config.add_root_noise,
            judge,
            arith,
            table,
        );
    }
}

/// Once its game is over, a slot without refill ends nothing more.
pub proof fn slots_rest_when_done<A: Arithmetic, T: Table>(
    path: Seq<(Game, Slot)>,
    ends: Seq<Option<FinishedGame>>,
    gi: usize,
    config: RunConfig,
    judge: Judge,
    arith: A,
    table: T,
    k: nat,
    r: nat,
)
    requires
        slot_run(path, ends, gi, config, judge, arith, table),
        !config.refill,
        k <= r < ends.len(),
        path[k as int].0.done,
    ensures
        path[r as int].0.done,
        ends[r as int] is None,
    decreases r,
{
    if k < r {
        slots_rest_when_done(path, ends, gi, config, judge, arith, table, k, (r - 1) as nat);
        slots_end_one_game(path, ends, gi, config, judge, arith, table, (r - 1) as nat);
        slots_end_one_game(path, ends, gi, config, judge, arith, table, r);
    }
    slots_end_one_game(path, ends, gi, config, judge, arith, table, r);
    slots_end_one_game(path, ends, gi, config, judge, arith, table, r + 1);
}

/// Every round of a worker's run tells of each slot whether its game is over.
pub proof fn rounds_tell_every_slot<A: Arithmetic, T: Table, E: Evaluator>(
    states: Seq<Shard>,
    ends: Seq<Seq<Option<FinishedGame>>>,
    share: Seq<usize>,
    config: RunConfig,
    arith: A,
    table: T,
    net: E,
    r: nat,
)
    requires
        shard_run(states, ends, share, config, arith, table, net),
        r < ends.len(),
    ensures
        states[r as int].games@.len() == share.len(),
        states[(r + 1) as int].games@.len() == share.len(),
        ends[r as int].len() == share.len(),
    decreases r,
{
    if r > 0 {
        rounds_tell_every_slot(states, ends, share, config, arith, table, net, (r - 1) as nat);
    }
    assert(shard_round_at(states, ends, r as int, config, arith, table, net));
    let before = states[r as int];
    let after = states[(r + 1) as int];
    let mid = choose|mid: Seq<Game>| #[trigger]
        searches(
            before.games@,
            mid,
            before.seats@,
            config.sims as int,
            config.add_root_noise,
            arith,
            table,
            net,
        ) && shard_steps(mid, before, after, ends[r as int], config, arith, table);
    searching_keeps_the_number(
        before.games@,
        mid,
        before.seats@,
        config.sims as int,
        config.add_root_noise,
        arith,
        table,
        net,
    );
}

/// Slots are dealt in contiguous shares of even size: with `n` shares of `total` slots, share `k`
/// holds the slots from `k` times `total / n` up to `k + 1` times that, without rounding.
pub proof fn slots_are_dealt_evenly(gi: int, later: int, n: int, total: int)
    requires
        0 <= gi <= later < total,
        0 < n,
    ensures
        owner(gi, n, total) * total <= gi * n < (owner(gi, n, total) + 1) * total,
        0 <= owner(gi, n, total) <= owner(later, n, total) < n,
{
    lemma_owner(gi, n, total);
    lemma_owner(later, n, total);
    vstd::arithmetic::div_mod::lemma_fundamental_div_mod(gi * n, total);
    vstd::arithmetic::div_mod::lemma_fundamental_div_mod(later * n, total);
    let k = owner(gi, n, total);
    let l = owner(later, n, total);
    let r = (gi * n) % total;
    let s = (later * n) % total;
    assert(k * total <= gi * n < (k + 1) * total) by (nonlinear_arith)
        requires
            gi * n == total * k + r,
            0 <= r < total,
    ;
    assert(k <= l) by (nonlinear_arith)
        requires
            gi * n == total * k + r,
            later * n == total * l + s,
            0 <= r < total,
            0 <= s < total,
            gi <= later,
            0 < n,
    ;
}

/// What becomes of a game whose turn has come and that is being played: it plays a move. A game
/// that the move ends is told by its identifier, with the rows of all its moves. With refill, a
/// new game takes its place: the slot keeps its number, counts one game more, and gets the seed of
/// that game. Without, the game stays in its slot and keeps no record. A game that goes on keeps
/// its slot.
pub proof fn ended_games_make_room<A: Arithmetic, T: Table>(
    before: Game,
    after: Game,
    slot: Slot,
    slot_after: Slot,
    end: Option<FinishedGame>,
    config: RunConfig,
    arith: A,
    table: T,
) -> (moved: Game)
    requires
        slot_steps(before, after, slot, slot_after, end, config, arith, table),
        !before.done,
        slot.generation < u32::MAX,
    ensures
        moves_on(
            before,
            moved,
            arith,
            table,
            uid_of(slot.global_index as u64, slot.generation),
        ),
        moved.done <==> end is Some,
        end matches Some(f) ==> {
            &&& f.game_uid == uid_of(slot.global_index as u64, slot.generation)
            &&& rows_of(moved, f.rows@)
            &&& f.rows@.len() == before.history@.len() + 1
        },
        !moved.done ==> after == moved && slot_after == slot,
        moved.done && config.refill ==> {
            &&& slot_after.global_index == slot.global_index
            &&& slot_after.generation == slot.generation + 1
            &&& slot_after.seed == seed_of_slot(
                config.master_seed,
                slot.global_index as u64,
                (slot.generation + 1) as u32,
            )
            &&& !after.done
            &&& after.line@.len() == 0
            &&& after.history@.len() == 0
            &&& nodes(after.arena@).len() == 1
            &&& call_ensures(
                T::start,
                (
                    &table,
                    uid_of(slot.global_index as u64, (slot.generation + 1) as u32),
                    Some(slot_after.seed),
                ),
                after.position,
            )
        },
        moved.done && !config.refill ==> {
            &&& slot_after == slot
            &&& after.done
            &&& after.history@.len() == 0
            &&& after.line == moved.line
        },
{
    let seat = seat_of(slot);
    let mid = choose|mid: Game| #[trigger]
        moves_on(before, mid, arith, table, seat) && if mid.done {
            &&& end matches Some(f) && f.game_uid == seat_of(slot) && rows_of(mid, f.rows@)
            &&& if config.refill {
                &&& is_new_game(after, after.position)
                &&& call_ensures(
                    T::start,
                    (&table, seat_of(slot_after), Some(slot_after.seed)),
                    after.position,
                )
                &&& slot_after == (Slot {
                    seed: seed_of_slot(
                        config.master_seed,
                        slot.global_index as u64,
                        (slot.generation + 1) as u32,
                    ),
                    global_index: slot.global_index,
                    generation: (slot.generation + 1) as u32,
                })
            } else {
                &&& after == (Game { history: after.history, ..mid })
                &&& after.history@.len() == 0
                &&& slot_after == slot
            }
        } else {
            after == mid && slot_after == slot && end is None
        };
    assert(mid.history@.len() == before.history@.len() + 1);
    mid
}

/// In a round of a worker every game that is being played is searched with as many simulations as
/// the run asks for, whatever it kept of earlier searches, with noise if the run asks for it, and
/// then has its turn.
pub proof fn rounds_take_their_simulations<A: Arithmetic, T: Table, E: Evaluator>(
    before: Shard,
    after: Shard,
    ends: Seq<Option<FinishedGame>>,
    i: int,
    config: RunConfig,
    arith: A,
    table: T,
    net: E,
) -> (searched: Seq<Game>)
    requires
        run_wf(config),
        shard_wf(before, config),
        shard_round(before, after, ends, config, arith, table, net),
        0 <= i < before.games@.len(),
        !before.games@[i].done,
    ensures
        searches(
            before.games@,
            searched,
            before.seats@,
            config.sims as int,
            config.add_root_noise,
            arith,
            table,
            net,
        ),
        searched[i].arena@[0].visit_count == before.games@[i].arena@[0].visit_count + config.sims,
        slot_steps(
            searched[i],
            after.games@[i],
            before.slots@[i],
            after.slots@[i],
            ends[i],
            config,
            arith,
            table,
        ),
{
    let mid = choose|mid: Seq<Game>| #[trigger]
        searches(
            before.games@,
            mid,
            before.seats@,
            config.sims as int,
            config.add_root_noise,
            arith,
            table,
            net,
        ) && shard_steps(mid, before, after, ends, config, arith, table);
    let g = before.games@[i];
    let sims = config.sims as int;
    assert(before.games@.len() == before.games.len());
    assert(game_wf(g));
    assert(is_live(g));
    let n = g.history@.len() as int;
    assert(n * sims + sims <= sims * (MAX_PLIES + 1)) by (nonlinear_arith)
        requires
            0 <= n <= MAX_PLIES,
            0 <= sims,
    ;
    assert(0 <= n * sims) by (nonlinear_arith)
        requires
            0 <= n,
            0 <= sims,
    ;
    assert(visits_within(nodes(g.arena@), u32::MAX - sims)) by {
        assert(visits_within(nodes(g.arena@), visit_cap(g, sims)));
        assert forall|k: int| 0 <= k < nodes(g.arena@).len() implies (
        #[trigger] nodes(g.arena@)[k]).visit_count <= u32::MAX - sims by {
            assert(nodes(g.arena@)[k].visit_count <= visit_cap(g, sims));
        }
    }
    roots_count_simulations(
        before.games@,
        mid,
        before.seats@,
        sims,
        config.add_root_noise,
        i,
        arith,
        table,
        net,
    );
    searching_keeps_the_number(
        before.games@,
        mid,
        before.seats@,
        sims,
        config.add_root_noise,
        arith,
        table,
        net,
    );
    assert(slot_steps(
        mid[i],
        after.games@[i],
        before.slots@[i],
        after.slots@[i],
        ends[i],
        config,
        arith,
        table,
    ));
    mid
}

/// There are as many shares as workers, but no more than slots, and at least one.
pub proof fn shares_are_for_workers_with_slots(n_threads: int, n_games: int)
    requires
        0 <= n_threads,
        0 <= n_games,
    ensures
        share_count(n_threads, n_games) >= 1,
        1 <= n_threads <= n_games ==> share_count(n_threads, n_games) == n_threads,
        1 <= n_games <= n_threads ==> share_count(n_threads, n_games) == n_games,
        n_threads == 0 || n_games == 0 ==> share_count(n_threads, n_games) == 1,
{
}

/// A share begins with a new game in each of its slots, in order: the first game of the slot, with
/// the seed of that game, at the seat that is named for it.
pub proof fn shares_begin_with_first_games<T: Table>(
    s: Shard,
    share: Seq<usize>,
    config: RunConfig,
    table: T,
    i: int,
)
    requires
        is_new_shard(s, share, config, table),
        0 <= i < share.len(),
    ensures
        s.games@.len() == share.len(),
        s.slots@[i].global_index == share[i],
        s.slots@[i].generation == 0,
        s.slots@[i].seed == seed_of_slot(config.master_seed, share[i] as u64, 0),
        s.seats@[i] == uid_of(share[i] as u64, 0),
        s.games@[i].line@.len() == 0,
        s.games@[i].history@.len() == 0,
        !s.games@[i].done,
        call_ensures(
            T::start,
            (
                &table,
                uid_of(share[i] as u64, 0),
                Some(seed_of_slot(config.master_seed, share[i] as u64, 0)),
            ),
            s.games@[i].position,
        ),
{
    assert(s.slots@[i] == first_slot(config, share[i]));
    assert(is_new_game(s.games@[i], s.games@[i].position));
    assert(s.seats@[i] == seat_of(s.slots@[i]));
}

} // verus!

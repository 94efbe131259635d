//! Matches between two players.

use crate::arith::{answers_fit, softmax_fits, table_wf, Arithmetic, Evaluator, Table};
use crate::batch::{
    games_live, games_wf, halts, run_simulations, same_but_tree, searches, Halt,
};
use crate::dice::{rolled, Dice};
use crate::game::{game_wf, is_live, is_result, position_wf, Game, Position};
use crate::ieee::{greater, Real, ONE, ZERO};
use crate::policy::{
    cold_moves_are_the_most_visited, is_sample, sample_move, warm_moves_exceed_their_threshold,
};
use crate::tree::{bushy, fresh_tree, nodes, visits_within, NodeView};
use rand::rngs::StdRng;
use vstd::prelude::*;

verus! {

/// A game of a match.
pub struct MatchGame {
    pub position: Position,
    /// The moves that led to the position from the start of the game.
    pub line: Vec<u16>,
    /// Whether the first player has White.
    pub a_is_white: bool,
    pub done: bool,
    /// Plies played.
    pub ply: usize,
    /// Result from White's point of view.
    pub rw: i8,
}

/// A game of a match is well-formed, its plies are the moves of its line, and it goes on
/// unless it is over.
pub open spec fn match_game_wf(g: MatchGame) -> bool {
    &&& position_wf(g.position)
    &&& g.ply == g.line@.len()
    &&& is_result(g.rw as int)
    &&& !g.done ==> g.position.outcome is None
}

/// A player chooses a move for each of the given games, in which it is to move. The first
/// plies of a game are played for variety.
pub trait Player {
    fn select_moves(
        &self,
        games: &Vec<MatchGame>,
        group: &Vec<usize>,
        opening_plies: usize,
    ) -> Vec<u16>;
}

// --- players -----------------------------------------------------------------

/// The handle belongs to a legal move.
pub open spec fn is_legal(p: Position, handle: u16) -> bool {
    exists|k: int| 0 <= k < p.legal@.len() && (#[trigger] p.legal@[k]).0 == handle
}

/// Plays any legal move.
pub struct RandomPlayer;

/// The generator after a move was drawn for each of the first `n` positions.
pub open spec fn rng_after(rng: StdRng, positions: Seq<&Position>, n: nat) -> StdRng
    decreases n,
{
    if n == 0 {
        rng
    } else {
        let before = rng_after(rng, positions, (n - 1) as nat);
        rolled(before, positions[n - 1].legal@.len() as usize, usize::BITS).1
    }
}

/// The move that is drawn for the `i`-th position.
pub open spec fn drawn_move(rng: StdRng, positions: Seq<&Position>, i: int) -> u16 {
    let legal = positions[i].legal@;
    let before = rng_after(rng, positions, i as nat);
    legal[rolled(before, legal.len() as usize, usize::BITS).0 as int].0
}

impl RandomPlayer {
    /// A legal move for each position: the one that the dice tell, in the order of the
    /// positions.
    pub fn select_moves(&self, positions: &Vec<&Position>, dice: &mut Dice) -> (moves: Vec<u16>)
        requires
            forall|i: int|
                0 <= i < positions@.len() ==> (#[trigger] positions@[i]).legal@.len() > 0,
        ensures
            moves@.len() == positions@.len(),
            forall|i: int|
                0 <= i < moves@.len() ==> is_legal(*positions@[i], #[trigger] moves@[i]),
            forall|i: int|
                0 <= i < moves@.len() ==> #[trigger] moves@[i] == drawn_move(
                    old(dice).rng,
                    positions@,
                    i,
                ),
            final(dice).rng == rng_after(old(dice).rng, positions@, positions@.len()),
    {
        let ghost start = dice.rng;
        let mut moves: Vec<u16> = Vec::new();
        let mut i: usize = 0;
        while i < positions.len()
            invariant
                0 <= i <= positions@.len(),
                moves@.len() == i,
                forall|j: int|
                    0 <= j < positions@.len() ==> (#[trigger] positions@[j]).legal@.len() > 0,
                forall|j: int|
                    0 <= j < i ==> is_legal(*positions@[j], #[trigger] moves@[j]),
                forall|j: int|
                    0 <= j < i ==> #[trigger] moves@[j] == drawn_move(start, positions@, j),
                dice.rng == rng_after(start, positions@, i as nat),
            decreases positions@.len() - i,
        {
            let p = positions[i];
            assert(positions@[i as int].legal@.len() > 0);
            assert(p.legal@.len() == p.legal.len());
            let k: usize = dice.below(p.legal.len());
            let (handle, _) = p.legal[k];
            assert(p.legal@[k as int].0 == handle);
            assert(is_legal(*positions@[i as int], handle));
            assert(handle == drawn_move(start, positions@, i as int));
            moves.push(handle);
            i += 1;
        }
        moves
    }
}

/// Sampling temperature of a match: one in the opening, and zero afterwards.
pub open spec fn match_temperature(ply: int, opening_plies: int) -> Real {
    if ply < opening_plies {
        ONE
    } else {
        ZERO
    }
}

/// A match is sampled at temperature one for exactly so many plies as its opening has, and at
/// temperature zero from there on.
pub proof fn openings_are_warm(ply: int, opening_plies: int)
    ensures
        ply < opening_plies ==> match_temperature(ply, opening_plies) == 0x3ff0_0000_0000_0000,
        ply >= opening_plies ==> match_temperature(ply, opening_plies) == 0,
{
}

/// A game that is taken up at a position, the end of the given line, with a fresh tree and
/// nothing on record.
pub open spec fn is_taken_up(g: Game, position: Position, line: Seq<u16>) -> bool {
    &&& game_wf(g)
    &&& g.position == position
    &&& g.line@ == line
    &&& nodes(g.arena@) == fresh_tree()
    &&& g.history@.len() == 0
    &&& !g.done
    &&& g.result == 0
}

/// Games that are taken up at the given positions, the ends of the given lines.
pub open spec fn are_taken_up(
    games: Seq<Game>,
    positions: Seq<Position>,
    lines: Seq<Vec<u16>>,
) -> bool {
    &&& games.len() == positions.len()
    &&& forall|i: int|
        0 <= i < games.len() ==> is_taken_up(#[trigger] games[i], positions[i], lines[i]@)
}

/// The handles are what searching the positions in fresh trees leads to: below `opening_plies`
/// a move is sampled at temperature one, and from there on at temperature zero.
pub open spec fn chosen_by_search<A: Arithmetic, T: Table, E: Evaluator>(
    positions: Seq<Position>,
    lines: Seq<Vec<u16>>,
    plies: Seq<usize>,
    seats: Seq<u64>,
    opening_plies: int,
    sims: int,
    handles: Seq<u16>,
    arith: A,
    table: T,
    net: E,
) -> bool {
    exists|holders: Seq<Game>, searched: Seq<Game>|
        {
            &&& are_taken_up(holders, positions, lines)
            &&& #[trigger] searches(holders, searched, seats, sims, false, arith, table, net)
            &&& handles.len() == positions.len()
            &&& forall|i: int|
                0 <= i < handles.len() ==> is_sample(
                    nodes(searched[i].arena@),
                    0,
                    if plies[i] < opening_plies {
                        ONE
                    } else {
                        ZERO
                    },
                    table,
                    seats[i],
                    holders[i].line,
                    #[trigger] handles[i],
                )
        }
}

/// A player that searches varies its openings. Where a game has come to fewer than
/// `opening_plies` plies, its position is searched in a fresh tree; the table, asked about the
/// line of the game, draws at temperature one for the visit counts of the children of the root;
/// and the move is the first whose cumulative weight exceeds the threshold, or the last.
pub proof fn opening_moves_are_sampled<A: Arithmetic, T: Table, E: Evaluator>(
    positions: Seq<Position>,
    lines: Seq<Vec<u16>>,
    plies: Seq<usize>,
    seats: Seq<u64>,
    opening_plies: int,
    sims: int,
    handles: Seq<u16>,
    i: int,
    arith: A,
    table: T,
    net: E,
) -> (drawn: (Seq<NodeView>, Vec<u16>, Vec<u32>, Real, Vec<Real>, int))
    requires
        chosen_by_search(
            positions,
            lines,
            plies,
            seats,
            opening_plies,
            sims,
            handles,
            arith,
            table,
            net,
        ),
        0 <= i < positions.len(),
        plies[i] < opening_plies,
    ensures
        exists|holders: Seq<Game>, searched: Seq<Game>|
            {
                &&& #[trigger] searches(holders, searched, seats, sims, false, arith, table, net)
                &&& holders.len() == positions.len()
                &&& holders[i].position == positions[i]
                &&& holders[i].line@ == lines[i]@
                &&& nodes(holders[i].arena@) == fresh_tree()
                &&& drawn.0 == nodes(searched[i].arena@)
            },
        ({
            let (tree, line, counts, threshold, cumulative, r) = drawn;
            &&& call_ensures(
                T::draw,
                (&table, seats[i], &line, &counts, 0x3ff0_0000_0000_0000u64),
                (threshold, cumulative),
            )
            &&& line@ == lines[i]@
            &&& counts@.len() == tree[0].children.len()
            &&& forall|j: int|
                0 <= j < counts@.len() ==> #[trigger] counts@[j]
                    == tree[tree[0].children[j].1 as int].visit_count
            &&& 0 <= r < tree[0].children.len()
            &&& tree[0].children[r].0 == handles[i]
            &&& forall|j: int|
                0 <= j < r && j < cumulative@.len() ==> !greater(
                    #[trigger] cumulative@[j],
                    threshold,
                )
            &&& r < tree[0].children.len() - 1 ==> r < cumulative@.len() && greater(
                cumulative@[r],
                threshold,
            )
        }),
{
    let (holders, searched) = choose|holders: Seq<Game>, searched: Seq<Game>|
        {
            &&& are_taken_up(holders, positions, lines)
            &&& #[trigger] searches(holders, searched, seats, sims, false, arith, table, net)
            &&& handles.len() == positions.len()
            &&& forall|i: int|
                0 <= i < handles.len() ==> is_sample(
                    nodes(searched[i].arena@),
                    0,
                    if plies[i] < opening_plies {
                        ONE
                    } else {
                        ZERO
                    },
                    table,
                    seats[i],
                    holders[i].line,
                    #[trigger] handles[i],
                )
        };
    assert(is_taken_up(holders[i], positions[i], lines[i]@));
    assert(searches(holders, searched, seats, sims, false, arith, table, net));
    let tree = nodes(searched[i].arena@);
    let (counts, threshold, cumulative, r) = warm_moves_exceed_their_threshold(
        tree,
        0,
        ONE,
        table,
        seats[i],
        holders[i].line,
        handles[i],
    );
    (tree, holders[i].line, counts, threshold, cumulative, r)
}

/// A player that searches is greedy after the opening. Where a game has come to `opening_plies`
/// plies or more, its position is searched in a fresh tree, and the move is the first of the
/// most visited ones.
pub proof fn later_moves_are_greedy<A: Arithmetic, T: Table, E: Evaluator>(
    positions: Seq<Position>,
    lines: Seq<Vec<u16>>,
    plies: Seq<usize>,
    seats: Seq<u64>,
    opening_plies: int,
    sims: int,
    handles: Seq<u16>,
    i: int,
    arith: A,
    table: T,
    net: E,
) -> (found: (Seq<NodeView>, int))
    requires
        chosen_by_search(
            positions,
            lines,
            plies,
            seats,
            opening_plies,
            sims,
            handles,
            arith,
            table,
            net,
        ),
        0 <= i < positions.len(),
        plies[i] >= opening_plies,
    ensures
        exists|holders: Seq<Game>, searched: Seq<Game>|
            {
                &&& #[trigger] searches(holders, searched, seats, sims, false, arith, table, net)
                &&& holders.len() == positions.len()
                &&& holders[i].position == positions[i]
                &&& holders[i].line@ == lines[i]@
                &&& nodes(holders[i].arena@) == fresh_tree()
                &&& found.0 == nodes(searched[i].arena@)
            },
        ({
            let (tree, r) = found;
            &&& 0 <= r < tree[0].children.len()
            &&& tree[0].children[r].0 == handles[i]
            &&& forall|j: int|
                0 <= j < tree[0].children.len() ==> tree[(
                #[trigger] tree[0].children[j]).1 as int].visit_count
                    <= tree[tree[0].children[r].1 as int].visit_count
            &&& forall|j: int|
                0 <= j < r ==> tree[(#[trigger] tree[0].children[j]).1 as int].visit_count
                    < tree[tree[0].children[r].1 as int].visit_count
        }),
{
    let (holders, searched) = choose|holders: Seq<Game>, searched: Seq<Game>|
        {
            &&& are_taken_up(holders, positions, lines)
            &&& #[trigger] searches(holders, searched, seats, sims, false, arith, table, net)
            &&& handles.len() == positions.len()
            &&& forall|i: int|
                0 <= i < handles.len() ==> is_sample(
                    nodes(searched[i].arena@),
                    0,
                    if plies[i] < opening_plies {
                        ONE
                    } else {
                        ZERO
                    },
                    table,
                    seats[i],
                    holders[i].line,
                    #[trigger] handles[i],
                )
        };
    assert(is_taken_up(holders[i], positions[i], lines[i]@));
    assert(searches(holders, searched, seats, sims, false, arith, table, net));
    let tree = nodes(searched[i].arena@);
    let r = cold_moves_are_the_most_visited(
        tree,
        0,
        ZERO,
        table,
        seats[i],
        holders[i].line,
        handles[i],
    );
    (tree, r)
}

/// Chooses moves by searching the positions, each the end of its line, in fresh trees: in the
/// opening it samples
/// from the visit counts, afterwards it takes the most visited move.
pub fn net_moves<A: Arithmetic, T: Table, E: Evaluator>(
    positions: Vec<Position>,
    lines: &Vec<Vec<u16>>,
    plies: &Vec<usize>,
    seats: &Vec<u64>,
    opening_plies: usize,
    sims: usize,
    arith: &A,
    table: &T,
    net: &E,
) -> (out: Result<Vec<u16>, Halt>)
    requires
        lines@.len() == positions@.len(),
        plies@.len() == positions@.len(),
        seats@.len() == positions@.len(),
        forall|i: int|
            0 <= i < positions@.len() ==> position_wf(#[trigger] positions@[i])
                && positions@[i].outcome is None,
        softmax_fits(*arith),
        table_wf(*table),
        answers_fit(*net),
        sims <= u32::MAX,
    ensures
        match out {
            Ok(handles) => exists|holders: Seq<Game>, searched: Seq<Game>|
                {
                    &&& are_taken_up(holders, positions@, lines@)
                    &&& #[trigger] searches(
                        holders,
                        searched,
                        seats@,
                        sims as int,
                        false,
                        *arith,
                        *table,
                        *net,
                    )
                    &&& handles@.len() == positions@.len()
                    &&& forall|i: int|
                        0 <= i < handles@.len() ==> is_sample(
                            nodes(searched[i].arena@),
                            0,
                            match_temperature(plies@[i] as int, opening_plies as int),
                            *table,
                            seats@[i],
                            holders[i].line,
                            #[trigger] handles@[i],
                        )
                },
            Err(halt) => exists|holders: Seq<Game>, searched: Seq<Game>|
                are_taken_up(holders, positions@, lines@) && #[trigger] halts(
                    holders,
                    searched,
                    seats@,
                    sims as int,
                    false,
                    halt,
                    *arith,
                    *table,
                    *net,
                ),
        },
        out matches Ok(handles) ==> chosen_by_search(
            positions@,
            lines@,
            plies@,
            seats@,
            opening_plies as int,
            sims as int,
            handles@,
            *arith,
            *table,
            *net,
        ),
{
    let ghost all = positions@;
    let mut rest = positions;
    let mut holders: Vec<Game> = Vec::new();
    assert(rest@ =~= all.skip(0));
    while rest.len() > 0
        invariant
            holders@.len() + rest@.len() == all.len(),
            rest@ == all.skip(holders@.len() as int),
            forall|i: int|
                0 <= i < all.len() ==> position_wf(#[trigger] all[i]) && all[i].outcome is None,
            lines@.len() == all.len(),
            forall|k: int|
                0 <= k < holders@.len() ==> is_taken_up(
                    #[trigger] holders@[k],
                    all[k],
                    lines@[k]@,
                ),
        decreases rest@.len(),
    {
        let position = rest.remove(0);
        assert(position == all[holders@.len() as int]);
        let line = lines[holders.len()].clone();
        holders.push(Game::at(position, line));
        assert(rest@ =~= all.skip(holders@.len() as int));
    }
    let ghost start = holders@;
    proof {
        assert forall|i: int| 0 <= i < start.len() implies visits_within(
            #[trigger] nodes(start[i].arena@),
            u32::MAX - sims,
        ) by {
            assert(is_taken_up(start[i], all[i], lines@[i]@));
        }
        assert forall|i: int| 0 <= i < start.len() implies game_wf(#[trigger] start[i]) && is_live(
            start[i],
        ) && bushy(nodes(start[i].arena@)) by {
            assert(is_taken_up(start[i], all[i], lines@[i]@));
        }
    }
    match run_simulations(&mut holders, seats, sims, arith, table, net) {
        Err(halt) => {
            let ghost searched = holders@;
            assert(halts(
                start,
                searched,
                seats@,
                sims as int,
                false,
                halt,
                *arith,
                *table,
                *net,
            ));
            return Err(halt);
        },
        Ok(()) => {},
    }
    let ghost searched = holders@;
    let mut handles: Vec<u16> = Vec::new();
    let mut i: usize = 0;
    while i < holders.len()
        invariant
            0 <= i <= holders@.len(),
            holders@ == searched,
            holders@.len() == all.len(),
            start.len() == all.len(),
            plies@.len() == all.len(),
            seats@.len() == all.len(),
            games_wf(searched),
            games_live(searched),
            forall|k: int| 0 <= k < searched.len() ==> same_but_tree(start[k], #[trigger] searched[k]),
            forall|k: int|
                0 <= k < searched.len() ==> !(#[trigger] searched[k]).done
                    && searched[k].arena@[0].expanded,
            handles@.len() == i,
            forall|k: int|
                0 <= k < i ==> is_sample(
                    nodes(searched[k].arena@),
                    0,
                    match_temperature(plies@[k] as int, opening_plies as int),
                    *table,
                    seats@[k],
                    start[k].line,
                    #[trigger] handles@[k],
                ),
        decreases holders@.len() - i,
    {
        let temp: Real = if plies[i] < opening_plies {
            ONE
        } else {
            ZERO
        };
        proof {
            assert(game_wf(searched[i as int]));
            let a = nodes(searched[i as int].arena@);
            assert(a[0] == searched[i as int].arena@[0]@);
        }
        let handle = sample_move(&holders[i].arena, 0, temp, table, seats[i], &holders[i].line);
        handles.push(handle);
        i += 1;
    }
    assert(searches(start, searched, seats@, sims as int, false, *arith, *table, *net));
    Ok(handles)
}

// --- the match ---------------------------------------------------------------

/// Which of the first `n` games are being played and wait for a move of the given player, in
/// order.
pub open spec fn movers(games: Seq<MatchGame>, n: nat, first_player: bool) -> Seq<usize>
    decreases n,
{
    if n == 0 {
        Seq::empty()
    } else {
        let rest = movers(games, (n - 1) as nat, first_player);
        let g = games[n - 1];
        if !g.done && (g.position.white_to_move == g.a_is_white) == first_player {
            rest.push((n - 1) as usize)
        } else {
            rest
        }
    }
}

proof fn lemma_movers(games: Seq<MatchGame>, n: nat, first_player: bool)
    requires
        n <= games.len() <= usize::MAX,
    ensures
        movers(games, n, first_player).len() <= n,
        forall|k: int|
            0 <= k < movers(games, n, first_player).len() ==> {
                let i = #[trigger] movers(games, n, first_player)[k] as int;
                &&& i < n
                &&& !games[i].done
                &&& (games[i].position.white_to_move == games[i].a_is_white) == first_player
            },
        forall|k: int, l: int|
            0 <= k < l < movers(games, n, first_player).len() ==> #[trigger] movers(
                games,
                n,
                first_player,
            )[k] < #[trigger] movers(games, n, first_player)[l],
        forall|i: int|
            0 <= i < n && !(#[trigger] games[i]).done && (games[i].position.white_to_move
                == games[i].a_is_white) == first_player ==> movers(games, n, first_player).contains(
                i as usize,
            ),
    decreases n,
{
    if n > 0 {
        lemma_movers(games, (n - 1) as nat, first_player);
        let rest = movers(games, (n - 1) as nat, first_player);
        let all = movers(games, n, first_player);
        assert forall|i: int|
            0 <= i < n && !(#[trigger] games[i]).done && (games[i].position.white_to_move
                == games[i].a_is_white) == first_player implies all.contains(i as usize) by {
            if i < n - 1 {
                let k = choose|k: int| 0 <= k < rest.len() && rest[k] == i as usize;
                assert(all[k] == i as usize);
            } else {
                assert(all[all.len() - 1] == i as usize);
            }
        }
    }
}

/// Finds the games that wait for a move of the given player.
pub fn find_movers(games: &Vec<MatchGame>, first_player: bool) -> (group: Vec<usize>)
    ensures
        group@ == movers(games@, games@.len(), first_player),
{
    let mut group: Vec<usize> = Vec::new();
    let mut i: usize = 0;
    while i < games.len()
        invariant
            0 <= i <= games@.len(),
            group@ == movers(games@, i as nat, first_player),
        decreases games@.len() - i,
    {
        let g = &games[i];
        if !g.done && (g.position.white_to_move == g.a_is_white) == first_player {
            group.push(i);
        }
        i += 1;
    }
    group
}

/// The move `handle` led game `before` to the position `next`: it is over when that position has an
/// outcome, or when the ply cap is reached, which counts as a draw.
pub open spec fn moved(
    before: MatchGame,
    after: MatchGame,
    handle: u16,
    next: Position,
    max_plies: int,
) -> bool {
    let ply = before.ply + 1;
    &&& after.line@ == before.line@.push(handle)
    &&& after.position == next
    &&& after.a_is_white == before.a_is_white
    &&& after.ply == ply
    &&& after.done == (next.outcome is Some || ply >= max_plies)
    &&& after.rw == match next.outcome {
        Some(r) => r,
        None => if ply >= max_plies {
            0
        } else {
            before.rw
        },
    }
}

/// The move `handle` was played in a game, and the table told the position at the end of the
/// longer line.
pub open spec fn plays_handle<T: Table>(
    before: MatchGame,
    after: MatchGame,
    table: T,
    seat: u64,
    handle: u16,
    max_plies: int,
) -> bool {
    exists|next: Position| #[trigger]
        call_ensures(T::play, (&table, seat, &after.line), next) && moved(
            before,
            after,
            handle,
            next,
            max_plies,
        )
}

/// The moves were played in the games of the group, and the other games are as they were.
pub open spec fn plays_moves<T: Table>(
    before: Seq<MatchGame>,
    after: Seq<MatchGame>,
    group: Seq<usize>,
    moves: Seq<u16>,
    table: T,
    max_plies: int,
) -> bool {
    &&& after.len() == before.len()
    &&& forall|k: int|
        0 <= k < group.len() ==> plays_handle(
            before[#[trigger] group[k] as int],
            after[group[k] as int],
            table,
            group[k] as u64,
            moves[k],
            max_plies,
        )
    &&& forall|i: int|
        0 <= i < before.len() && !group.contains(i as usize) ==> #[trigger] after[i] == before[i]
}

/// A player moves in all games of the group.
pub open spec fn half_round<P: Player, T: Table>(
    before: Seq<MatchGame>,
    after: Seq<MatchGame>,
    group: Seq<usize>,
    player: P,
    opening_plies: usize,
    max_plies: usize,
    table: T,
) -> bool {
    if group.len() == 0 {
        after == before
    } else {
        exists|games: Vec<MatchGame>, asked: Vec<usize>, moves: Vec<u16>|
            {
                &&& #[trigger] call_ensures(
                    P::select_moves,
                    (&player, &games, &asked, opening_plies),
                    moves,
                )
                &&& games@ == before
                &&& asked@ == group
                &&& moves@.len() >= group.len()
                &&& plays_moves(before, after, group, moves@, table, max_plies as int)
            }
    }
}

/// The player was asked for moves in the games of the group and gave too few.
pub open spec fn falls_short<P: Player>(
    games: Seq<MatchGame>,
    group: Seq<usize>,
    player: P,
    opening_plies: usize,
) -> bool {
    exists|gs: Vec<MatchGame>, asked: Vec<usize>, moves: Vec<u16>| #[trigger]
        call_ensures(P::select_moves, (&player, &gs, &asked, opening_plies), moves) && gs@ == games
            && asked@ == group && moves@.len() < group.len()
}

/// One round: the first player moves where it is to move, and then the second player where it
/// was to move when the round began.
pub open spec fn round<P: Player, Q: Player, T: Table>(
    before: Seq<MatchGame>,
    after: Seq<MatchGame>,
    player_a: P,
    player_b: Q,
    opening_plies: usize,
    max_plies: usize,
    table: T,
) -> bool {
    exists|mid: Seq<MatchGame>| #[trigger]
        half_round(
            before,
            mid,
            movers(before, before.len(), true),
            player_a,
            opening_plies,
            max_plies,
            table,
        ) && half_round(
            mid,
            after,
            movers(before, before.len(), false),
            player_b,
            opening_plies,
            max_plies,
            table,
        )
}

/// The `k`-th round of a match.
pub open spec fn round_at<P: Player, Q: Player, T: Table>(
    states: Seq<Seq<MatchGame>>,
    k: int,
    player_a: P,
    player_b: Q,
    opening_plies: usize,
    max_plies: usize,
    table: T,
) -> bool {
    round(states[k], states[k + 1], player_a, player_b, opening_plies, max_plies, table)
}

/// The games at the start of a match: the players take turns at having White.
pub open spec fn kicks_off<T: Table>(games: Seq<MatchGame>, n: int, table: T) -> bool {
    &&& games.len() == n
    &&& forall|i: int|
        0 <= i < n ==> {
            let g = #[trigger] games[i];
            &&& call_ensures(T::start, (&table, i as u64, None), g.position)
            &&& g.line@.len() == 0
            &&& g.a_is_white == (i % 2 == 0)
            &&& !g.done
            &&& g.ply == 0
            &&& g.rw == 0
        }
}

/// A match runs through the given states, from its start to the end of every game.
pub open spec fn is_match<P: Player, Q: Player, T: Table>(
    states: Seq<Seq<MatchGame>>,
    n: int,
    player_a: P,
    player_b: Q,
    opening_plies: usize,
    max_plies: usize,
    table: T,
) -> bool {
    &&& states.len() > 0
    &&& kicks_off(states[0], n, table)
    &&& forall|k: int|
        0 <= k < states.len() - 1 ==> #[trigger] round_at(
            states,
            k,
            player_a,
            player_b,
            opening_plies,
            max_plies,
            table,
        )
    &&& states.last().len() == n
    &&& forall|i: int| 0 <= i < n ==> (#[trigger] states.last()[i]).done
}

/// A match runs through the given states, from its start to a round in which a player who is to
/// move gives too few moves.
pub open spec fn breaks_off<P: Player, Q: Player, T: Table>(
    states: Seq<Seq<MatchGame>>,
    n: int,
    player_a: P,
    player_b: Q,
    opening_plies: usize,
    max_plies: usize,
    table: T,
) -> bool {
    let last = states.last();
    let first = movers(last, last.len(), true);
    let second = movers(last, last.len(), false);
    &&& states.len() > 0
    &&& kicks_off(states[0], n, table)
    &&& forall|k: int|
        0 <= k < states.len() - 1 ==> #[trigger] round_at(
            states,
            k,
            player_a,
            player_b,
            opening_plies,
            max_plies,
            table,
        )
    &&& last.len() == n
    &&& {
        ||| first.len() > 0 && falls_short(last, first, player_a, opening_plies)
        ||| second.len() > 0 && exists|mid: Seq<MatchGame>| #[trigger]
            half_round(last, mid, first, player_a, opening_plies, max_plies, table) && falls_short(
                mid,
                second,
                player_b,
                opening_plies,
            )
    }
}

/// Result of a game from the first player's point of view.
pub open spec fn score_a(g: MatchGame) -> int {
    if g.a_is_white {
        g.rw as int
    } else {
        -(g.rw as int)
    }
}

/// Wins, draws and losses of the first player in the first `n` games.
pub open spec fn tally(games: Seq<MatchGame>, n: nat) -> (int, int, int)
    decreases n,
{
    if n == 0 {
        (0, 0, 0)
    } else {
        let (w, d, l) = tally(games, (n - 1) as nat);
        let a = score_a(games[n - 1]);
        if a > 0 {
            (w + 1, d, l)
        } else if a < 0 {
            (w, d, l + 1)
        } else {
            (w, d + 1, l)
        }
    }
}

/// Every game is a win, a draw or a loss.
pub proof fn every_game_counts_once(games: Seq<MatchGame>, n: nat)
    ensures
        tally(games, n).0 >= 0,
        tally(games, n).1 >= 0,
        tally(games, n).2 >= 0,
        tally(games, n).0 + tally(games, n).1 + tally(games, n).2 == n,
    decreases n,
{
    if n > 0 {
        every_game_counts_once(games, (n - 1) as nat);
    }
}

/// A game counts for the side that the first player had: its result is White's, and the first
/// player wins it with White where White won, and with Black where White lost. Each game adds
/// one to one of the three counts, and nothing to the others.
pub proof fn results_count_for_the_first_player(games: Seq<MatchGame>, n: nat)
    requires
        n < games.len(),
    ensures
        tally(games, 0) == (0int, 0int, 0int),
        games[n as int].rw == 0 ==> tally(games, n + 1) == (
            tally(games, n).0,
            tally(games, n).1 + 1,
            tally(games, n).2,
        ),
        games[n as int].rw > 0 && games[n as int].a_is_white || games[n as int].rw < 0
            && !games[n as int].a_is_white ==> tally(games, n + 1) == (
            tally(games, n).0 + 1,
            tally(games, n).1,
            tally(games, n).2,
        ),
        games[n as int].rw < 0 && games[n as int].a_is_white || games[n as int].rw > 0
            && !games[n as int].a_is_white ==> tally(games, n + 1) == (
            tally(games, n).0,
            tally(games, n).1,
            tally(games, n).2 + 1,
        ),
{
}

/// The first player has White in the first game of a match, and from one game to the next the
/// players exchange the colors. Every game begins with an empty line.
pub proof fn colors_alternate<T: Table>(games: Seq<MatchGame>, n: int, table: T)
    requires
        kicks_off(games, n, table),
        0 < n,
    ensures
        games.len() == n,
        games[0].a_is_white,
        forall|i: int, j: int|
            0 <= i < n && j == i + 1 && j < n ==> (#[trigger] games[i]).a_is_white != (
            #[trigger] games[j]).a_is_white,
        forall|i: int|
            0 <= i < n ==> (#[trigger] games[i]).line@.len() == 0 && games[i].ply == 0
                && !games[i].done && call_ensures(
                T::start,
                (&table, i as u64, None),
                games[i].position,
            ),
{
}

/// A move of a player in a game, as the player was asked for it among other games: the `k`-th
/// move that it gave is for the `k`-th game that it was asked about. The move lengthens the line,
/// and the table tells the position at its end. The game is over exactly where that position has
/// an outcome or `max_plies` is reached; then the outcome is its result, or a draw when there is
/// none.
pub open spec fn answers_for<P: Player, T: Table>(
    player: P,
    shown: Seq<MatchGame>,
    before: MatchGame,
    after: MatchGame,
    i: int,
    opening_plies: usize,
    max_plies: usize,
    table: T,
) -> bool {
    exists|games: Vec<MatchGame>, asked: Vec<usize>, moves: Vec<u16>, k: int|
        {
            &&& #[trigger] call_ensures(
                P::select_moves,
                (&player, &games, &asked, opening_plies),
                moves,
            )
            &&& games@ == shown
            &&& 0 <= k < asked@.len() <= moves@.len()
            &&& #[trigger] asked@[k] == i
            &&& after.line@ == before.line@.push(moves@[k])
            &&& call_ensures(T::play, (&table, i as u64, &after.line), after.position)
            &&& after.a_is_white == before.a_is_white
            &&& after.ply == before.ply + 1
            &&& after.done <==> after.position.outcome is Some || before.ply + 1 >= max_plies
            &&& after.position.outcome matches Some(r) ==> after.rw == r
            &&& after.position.outcome is None && after.done ==> after.rw == 0
        }
}

proof fn lemma_half_round<P: Player, T: Table>(
    before: Seq<MatchGame>,
    after: Seq<MatchGame>,
    group: Seq<usize>,
    player: P,
    opening_plies: usize,
    max_plies: usize,
    table: T,
    i: int,
)
    requires
        half_round(before, after, group, player, opening_plies, max_plies, table),
        0 <= i < before.len() <= usize::MAX,
    ensures
        after.len() == before.len(),
        !group.contains(i as usize) ==> after[i] == before[i],
        group.contains(i as usize) ==> answers_for(
            player,
            before,
            before[i],
            after[i],
            i,
            opening_plies,
            max_plies,
            table,
        ),
{
    if group.len() > 0 {
        let (games, asked, moves) = choose|
            games: Vec<MatchGame>,
            asked: Vec<usize>,
            moves: Vec<u16>,
        |
            {
                &&& #[trigger] call_ensures(
                    P::select_moves,
                    (&player, &games, &asked, opening_plies),
                    moves,
                )
                &&& games@ == before
                &&& asked@ == group
                &&& moves@.len() >= group.len()
                &&& plays_moves(before, after, group, moves@, table, max_plies as int)
            };
        if group.contains(i as usize) {
            let k = choose|k: int| 0 <= k < group.len() && group[k] == i as usize;
            assert(plays_handle(
                before[group[k] as int],
                after[group[k] as int],
                table,
                group[k] as u64,
                moves@[k],
                max_plies as int,
            ));
            assert(asked@[k] == i);
            assert(call_ensures(
                P::select_moves,
                (&player, &games, &asked, opening_plies),
                moves,
            ));
        }
    }
}

/// In a round every game that is being played moves on by one move, and the others stay as they
/// are. Where the first player is to move, it chooses among the games as the round found them;
/// where the second player is to move, it chooses among the games as the first player left them.
pub proof fn rounds_move_every_game_once<P: Player, Q: Player, T: Table>(
    before: Seq<MatchGame>,
    after: Seq<MatchGame>,
    player_a: P,
    player_b: Q,
    opening_plies: usize,
    max_plies: usize,
    table: T,
    i: int,
) -> (mid: Seq<MatchGame>)
    requires
        round(before, after, player_a, player_b, opening_plies, max_plies, table),
        0 <= i < before.len() <= usize::MAX,
    ensures
        after.len() == before.len(),
        mid.len() == before.len(),
        before[i].done ==> after[i] == before[i],
        !before[i].done && before[i].position.white_to_move == before[i].a_is_white ==> answers_for(
            player_a,
            before,
            before[i],
            after[i],
            i,
            opening_plies,
            max_plies,
            table,
        ) && mid[i] == after[i],
        !before[i].done && before[i].position.white_to_move != before[i].a_is_white ==> answers_for(
            player_b,
            mid,
            before[i],
            after[i],
            i,
            opening_plies,
            max_plies,
            table,
        ) && mid[i] == before[i],
{
    let first = movers(before, before.len(), true);
    let second = movers(before, before.len(), false);
    let mid = choose|mid: Seq<MatchGame>| #[trigger]
        half_round(before, mid, first, player_a, opening_plies, max_plies, table) && half_round(
            mid,
            after,
            second,
            player_b,
            opening_plies,
            max_plies,
            table,
        );
    lemma_movers(before, before.len(), true);
    lemma_movers(before, before.len(), false);
    lemma_half_round(before, mid, first, player_a, opening_plies, max_plies, table, i);
    lemma_half_round(mid, after, second, player_b, opening_plies, max_plies, table, i);
    if first.contains(i as usize) {
        let k = choose|k: int| 0 <= k < first.len() && first[k] == i as usize;
        assert(!before[first[k] as int].done);
    }
    if second.contains(i as usize) {
        let k = choose|k: int| 0 <= k < second.len() && second[k] == i as usize;
        assert(!before[second[k] as int].done);
    }
    mid
}

/// What is a win for one player is a loss for the other.
pub proof fn tally_is_antisymmetric(games: Seq<MatchGame>, swapped: Seq<MatchGame>, n: nat)
    requires
        n <= games.len(),
        swapped.len() == games.len(),
        forall|i: int|
            0 <= i < games.len() ==> #[trigger] swapped[i] == (MatchGame {
                a_is_white: !games[i].a_is_white,
                ..games[i]
            }),
    ensures
        tally(swapped, n) == (tally(games, n).2, tally(games, n).1, tally(games, n).0),
    decreases n,
{
    if n > 0 {
        tally_is_antisymmetric(games, swapped, (n - 1) as nat);
        assert(swapped[n - 1].rw == games[n - 1].rw);
    }
}

/// Plays one move of a game.
fn push_move<T: Table>(g: &mut MatchGame, table: &T, seat: u64, handle: u16, max_plies: usize)
    requires
        match_game_wf(*old(g)),
        !old(g).done,
        old(g).ply < usize::MAX,
        table_wf(*table),
    ensures
        plays_handle(*old(g), *final(g), *table, seat, handle, max_plies as int),
        match_game_wf(*final(g)),
        final(g).ply == old(g).ply + 1,
        !final(g).done ==> final(g).ply < max_plies,
{
    g.line.push(handle);
    let next = table.play(seat, &g.line);
    let ghost place = next;
    g.position = next;
    g.ply += 1;
    match g.position.outcome {
        Some(r) => {
            g.rw = r;
            g.done = true;
        },
        None => {
            if g.ply >= max_plies {
                g.rw = 0;
                g.done = true;
            }
        },
    }
    assert(call_ensures(T::play, (table, seat, &g.line), place));
    assert(moved(*old(g), *g, handle, place, max_plies as int));
}

/// Lets a player move in the games of the group. `false` when it gave too few moves.
fn play_half<P: Player, T: Table>(
    games: &mut Vec<MatchGame>,
    group: &Vec<usize>,
    player: &P,
    opening_plies: usize,
    max_plies: usize,
    table: &T,
) -> (ok: bool)
    requires
        table_wf(*table),
        forall|i: int| 0 <= i < old(games)@.len() ==> match_game_wf(#[trigger] old(games)@[i]),
        forall|k: int|
            0 <= k < group@.len() ==> (#[trigger] group@[k]) < old(games)@.len() && !old(
                games,
            )@[group@[k] as int].done && old(games)@[group@[k] as int].ply < usize::MAX,
        forall|k: int, l: int|
            0 <= k < l < group@.len() ==> #[trigger] group@[k] < #[trigger] group@[l],
    ensures
        final(games)@.len() == old(games)@.len(),
        forall|i: int| 0 <= i < final(games)@.len() ==> match_game_wf(#[trigger] final(games)@[i]),
        ok ==> half_round(
            old(games)@,
            final(games)@,
            group@,
            *player,
            opening_plies,
            max_plies,
            *table,
        ),
        ok ==> forall|i: int|
            0 <= i < old(games)@.len() ==> if group@.contains(i as usize) {
                &&& (#[trigger] final(games)@[i]).ply == old(games)@[i].ply + 1
                &&& !final(games)@[i].done ==> final(games)@[i].ply < max_plies
            } else {
                final(games)@[i] == old(games)@[i]
            },
        !ok ==> group@.len() > 0 && falls_short(old(games)@, group@, *player, opening_plies),
{
    if group.len() == 0 {
        return true;
    }
    let ghost start = *games;
    assert(start@.len() == start.len());
    let moves = player.select_moves(games, group, opening_plies);
    assert(call_ensures(P::select_moves, (player, &start, group, opening_plies), moves));
    if moves.len() < group.len() {
        return false;
    }
    let mut k: usize = 0;
    while k < group.len()
        invariant
            0 <= k <= group@.len(),
            moves@.len() >= group@.len(),
            table_wf(*table),
            games@.len() == start@.len(),
            forall|i: int| 0 <= i < games@.len() ==> match_game_wf(#[trigger] games@[i]),
            forall|j: int|
                0 <= j < group@.len() ==> (#[trigger] group@[j]) < start@.len()
                    && !start@[group@[j] as int].done && start@[group@[j] as int].ply
                    < usize::MAX,
            forall|j: int, l: int|
                0 <= j < l < group@.len() ==> #[trigger] group@[j] < #[trigger] group@[l],
            forall|j: int|
                0 <= j < k ==> plays_handle(
                    start@[#[trigger] group@[j] as int],
                    games@[group@[j] as int],
                    *table,
                    group@[j] as u64,
                    moves@[j],
                    max_plies as int,
                ) && games@[group@[j] as int].ply == start@[group@[j] as int].ply + 1 && (
                !games@[group@[j] as int].done ==> games@[group@[j] as int].ply < max_plies),
            forall|i: int|
                0 <= i < start@.len() && !group@.take(k as int).contains(i as usize)
                    ==> #[trigger] games@[i] == start@[i],
        decreases group@.len() - k,
    {
        let gi: usize = group[k];
        let ghost before = games@;
        proof {
            if group@.take(k as int).contains(gi) {
                let j = choose|j: int| 0 <= j < k && group@.take(k as int)[j] == gi;
                assert(group@[j] < group@[k as int]);
            }
            assert(before[gi as int] == start@[gi as int]);
        }
        push_move(&mut games[gi], table, gi as u64, moves[k], max_plies);
        proof {
            assert forall|j: int| 0 <= j < k + 1 implies plays_handle(
                start@[#[trigger] group@[j] as int],
                games@[group@[j] as int],
                *table,
                group@[j] as u64,
                moves@[j],
                max_plies as int,
            ) && games@[group@[j] as int].ply == start@[group@[j] as int].ply + 1 && (
            !games@[group@[j] as int].done ==> games@[group@[j] as int].ply < max_plies) by {
                if j < k {
                    assert(group@[j] < group@[k as int]);
                    assert(games@[group@[j] as int] == before[group@[j] as int]);
                }
            }
            assert forall|i: int| 0 <= i < games@.len() implies match_game_wf(
                #[trigger] games@[i],
            ) by {
                if i != gi {
                    assert(games@[i] == before[i]);
                }
            }
            assert forall|i: int|
                0 <= i < start@.len() && !group@.take(k + 1).contains(
                    i as usize,
                ) implies #[trigger] games@[i] == start@[i] by {
                if group@.take(k as int).contains(i as usize) {
                    let j = choose|j: int| 0 <= j < k && group@.take(k as int)[j] == i as usize;
                    assert(group@.take(k + 1)[j] == i as usize);
                }
                if i == gi {
                    assert(group@.take(k + 1)[k as int] == gi);
                }
                assert(games@[i] == before[i]);
            }
        }
        k += 1;
    }
    proof {
        assert(group@.take(k as int) =~= group@);
        assert(plays_moves(start@, games@, group@, moves@, *table, max_plies as int));
        assert forall|i: int| 0 <= i < start@.len() implies if group@.contains(i as usize) {
            &&& (#[trigger] games@[i]).ply == start@[i].ply + 1
            &&& !games@[i].done ==> games@[i].ply < max_plies
        } else {
            games@[i] == start@[i]
        } by {
            if group@.contains(i as usize) {
                let j = choose|j: int| 0 <= j < group@.len() && group@[j] == i as usize;
                assert(games@[group@[j] as int].ply == start@[group@[j] as int].ply + 1);
            }
        }
    }
    true
}

/// Counts the wins, draws and losses of the first player.
pub fn count_results(games: &Vec<MatchGame>) -> (wdl: (i32, i32, i32))
    requires
        games@.len() <= i32::MAX,
        forall|i: int| 0 <= i < games@.len() ==> is_result((#[trigger] games@[i]).rw as int),
    ensures
        wdl.0 == tally(games@, games@.len()).0,
        wdl.1 == tally(games@, games@.len()).1,
        wdl.2 == tally(games@, games@.len()).2,
{
    let mut w: i32 = 0;
    let mut d: i32 = 0;
    let mut l: i32 = 0;
    let mut i: usize = 0;
    while i < games.len()
        invariant
            0 <= i <= games@.len() <= i32::MAX,
            forall|k: int| 0 <= k < games@.len() ==> is_result((#[trigger] games@[k]).rw as int),
            w == tally(games@, i as nat).0,
            d == tally(games@, i as nat).1,
            l == tally(games@, i as nat).2,
        decreases games@.len() - i,
    {
        let g = &games[i];
        assert(is_result(games@[i as int].rw as int));
        proof {
            every_game_counts_once(games@, i as nat);
        }
        let a: i8 = if g.a_is_white {
            g.rw
        } else {
            -g.rw
        };
        if a > 0 {
            w += 1;
        } else if a < 0 {
            l += 1;
        } else {
            d += 1;
        }
        i += 1;
    }
    (w, d, l)
}

/// Plays a match of `n_games` games in which the players take turns at having White, and
/// gives the wins, draws and losses of the first player. A game that reaches the ply cap is a
/// draw. `None` when a player who is to move did not give a move for each of its games.
pub fn play_match<P: Player, Q: Player, T: Table>(
    player_a: &P,
    player_b: &Q,
    n_games: usize,
    opening_plies: usize,
    max_plies: usize,
    table: &T,
) -> (wdl: Option<(i32, i32, i32)>)
    requires
        n_games <= i32::MAX,
        table_wf(*table),
    ensures
        match wdl {
            Some((w, d, l)) => exists|states: Seq<Seq<MatchGame>>| #[trigger]
                is_match(
                    states,
                    n_games as int,
                    *player_a,
                    *player_b,
                    opening_plies,
                    max_plies,
                    *table,
                ) && (w as int, d as int, l as int) == tally(states.last(), n_games as nat),
            None => exists|states: Seq<Seq<MatchGame>>| #[trigger]
                breaks_off(
                    states,
                    n_games as int,
                    *player_a,
                    *player_b,
                    opening_plies,
                    max_plies,
                    *table,
                ),
        },
        n_games == 0 ==> wdl == Some((0i32, 0i32, 0i32)),
        wdl matches Some((w, d, l)) ==> w >= 0 && d >= 0 && l >= 0 && w + d + l == n_games,
{
    let mut games: Vec<MatchGame> = Vec::new();
    let mut i: usize = 0;
    while i < n_games
        invariant
            0 <= i <= n_games,
            table_wf(*table),
            kicks_off(games@, i as int, *table),
            forall|k: int| 0 <= k < games@.len() ==> match_game_wf(#[trigger] games@[k]),
        decreases n_games - i,
    {
        let ghost before = games@;
        let position = table.start(i as u64, None);
        let g = MatchGame {
            position,
            line: Vec::new(),
            a_is_white: i % 2 == 0,
            done: false,
            ply: 0,
            rw: 0,
        };
        games.push(g);
        proof {
            assert forall|k: int| 0 <= k < i + 1 implies {
                let g = #[trigger] games@[k];
                &&& call_ensures(T::start, (table, k as u64, None), g.position)
                &&& g.line@.len() == 0
                &&& g.a_is_white == (k % 2 == 0)
                &&& !g.done
                &&& g.ply == 0
                &&& g.rw == 0
                &&& match_game_wf(g)
            } by {
                if k < i {
                    assert(games@[k] == before[k]);
                }
            }
        }
        i += 1;
    }
    let ghost mut states: Seq<Seq<MatchGame>> = seq![games@];
    let cap: usize = if max_plies > 1 {
        max_plies
    } else {
        1
    };
    let mut played: usize = 0;
    while played < cap
        invariant
            0 <= played <= cap,
            max_plies <= cap,
            n_games <= i32::MAX,
            table_wf(*table),
            games@.len() == n_games,
            forall|k: int| 0 <= k < games@.len() ==> match_game_wf(#[trigger] games@[k]),
            forall|k: int|
                0 <= k < games@.len() && !(#[trigger] games@[k]).done ==> games@[k].ply == played
                    && played < cap,
            states.len() > 0,
            kicks_off(states[0], n_games as int, *table),
            states.last() == games@,
            forall|k: int|
                0 <= k < states.len() - 1 ==> #[trigger] round_at(
                    states,
                    k,
                    *player_a,
                    *player_b,
                    opening_plies,
                    max_plies,
                    *table,
                ),
        decreases cap - played,
    {
        let ghost before = games@;
        let a_idx = find_movers(&games, true);
        let b_idx = find_movers(&games, false);
        proof {
            lemma_movers(before, before.len(), true);
            lemma_movers(before, before.len(), false);
        }
        if a_idx.len() == 0 && b_idx.len() == 0 {
            proof {
                assert forall|k: int| 0 <= k < games@.len() implies (#[trigger] games@[k]).done
                    && is_result(games@[k].rw as int) by {
                    assert(match_game_wf(games@[k]));
                    if !before[k].done {
                        if (before[k].position.white_to_move == before[k].a_is_white) == true {
                            assert(a_idx@.contains(k as usize));
                        } else {
                            assert(b_idx@.contains(k as usize));
                        }
                    }
                }
                assert(is_match(
                    states,
                    n_games as int,
                    *player_a,
                    *player_b,
                    opening_plies,
                    max_plies,
                    *table,
                ));
                every_game_counts_once(games@, games@.len());
            }
            return Some(count_results(&games));
        }
        if !play_half(&mut games, &a_idx, player_a, opening_plies, max_plies, table) {
            assert(breaks_off(
                states,
                n_games as int,
                *player_a,
                *player_b,
                opening_plies,
                max_plies,
                *table,
            ));
            return None;
        }
        let ghost mid = games@;
        proof {
            assert forall|k: int| 0 <= k < b_idx@.len() implies (#[trigger] b_idx@[k]) < mid.len()
                && !mid[b_idx@[k] as int].done && mid[b_idx@[k] as int].ply < usize::MAX by {
                let x = b_idx@[k];
                if a_idx@.contains(x) {
                    let j = choose|j: int| 0 <= j < a_idx@.len() && a_idx@[j] == x;
                    assert((before[x as int].position.white_to_move
                        == before[x as int].a_is_white) == true);
                }
                assert(mid[x as int] == before[x as int]);
            }
        }
        assert(half_round(before, mid, a_idx@, *player_a, opening_plies, max_plies, *table));
        if !play_half(&mut games, &b_idx, player_b, opening_plies, max_plies, table) {
            assert(breaks_off(
                states,
                n_games as int,
                *player_a,
                *player_b,
                opening_plies,
                max_plies,
                *table,
            ));
            return None;
        }
        proof {
            assert(round(before, games@, *player_a, *player_b, opening_plies, max_plies, *table));
            assert forall|k: int| 0 <= k < games@.len() && !(
            #[trigger] games@[k]).done implies games@[k].ply == played + 1 && played + 1
                < cap by {
                let g = before[k];
                if g.done {
                    if a_idx@.contains(k as usize) {
                        let j = choose|j: int| 0 <= j < a_idx@.len() && a_idx@[j] == k as usize;
                        assert(!before[a_idx@[j] as int].done);
                    }
                    if b_idx@.contains(k as usize) {
                        let j = choose|j: int| 0 <= j < b_idx@.len() && b_idx@[j] == k as usize;
                        assert(!before[b_idx@[j] as int].done);
                    }
                    assert(mid[k] == before[k]);
                    assert(games@[k] == mid[k]);
                } else if (g.position.white_to_move == g.a_is_white) == true {
                    assert(a_idx@.contains(k as usize));
                    if b_idx@.contains(k as usize) {
                        let j = choose|j: int| 0 <= j < b_idx@.len() && b_idx@[j] == k as usize;
                        assert((before[b_idx@[j] as int].position.white_to_move
                            == before[b_idx@[j] as int].a_is_white) == false);
                    }
                    assert(mid[k].ply == g.ply + 1);
                    assert(games@[k] == mid[k]);
                } else {
                    assert(b_idx@.contains(k as usize));
                    if a_idx@.contains(k as usize) {
                        let j = choose|j: int| 0 <= j < a_idx@.len() && a_idx@[j] == k as usize;
                        assert((before[a_idx@[j] as int].position.white_to_move
                            == before[a_idx@[j] as int].a_is_white) == true);
                    }
                    assert(mid[k] == g);
                    assert(games@[k].ply == mid[k].ply + 1);
                }
            }
            let earlier = states;
            states = states.push(games@);
            assert forall|k: int| 0 <= k < states.len() - 1 implies #[trigger] round_at(
                states,
                k,
                *player_a,
                *player_b,
                opening_plies,
                max_plies,
                *table,
            ) by {
                if k < earlier.len() - 1 {
                    assert(round_at(earlier, k, *player_a, *player_b, opening_plies, max_plies, *table));
                    assert(states[k] == earlier[k] && states[k + 1] == earlier[k + 1]);
                }
            }
        }
        played += 1;
    }
    proof {
        assert forall|k: int| 0 <= k < games@.len() implies (#[trigger] games@[k]).done && is_result(
            games@[k].rw as int,
        ) by {
            assert(match_game_wf(games@[k]));
        }
        assert(is_match(states, n_games as int, *player_a, *player_b, opening_plies, max_plies, *table));
        every_game_counts_once(games@, games@.len());
    }
    Some(count_results(&games))
}

// --- the same match with the players exchanged -------------------------------

/// A player whose move depends on nothing but what was played so far in the game.
pub open spec fn chooses<P: Player>(player: P, choice: spec_fn(Seq<u16>) -> u16) -> bool {
    forall|games: &Vec<MatchGame>, group: &Vec<usize>, opening: usize, moves: Vec<u16>, k: int|
        #![trigger call_ensures(P::select_moves, (&player, games, group, opening), moves), moves@[k]]
        call_ensures(P::select_moves, (&player, games, group, opening), moves) && 0 <= k
            < group@.len() && k < moves@.len() ==> moves@[k] == choice(
            games@[group@[k] as int].line@,
        )
}

/// What the rules of the game tell of a line: whether White is to move at its end, and the
/// result if the game is over there.
pub struct Rules {
    pub white_to_move: spec_fn(Seq<u16>) -> bool,
    pub outcome: spec_fn(Seq<u16>) -> Option<i8>,
}

/// The position is the end of the line.
pub open spec fn ends_at(p: Position, line: Seq<u16>, rules: Rules) -> bool {
    p.white_to_move == (rules.white_to_move)(line) && p.outcome == (rules.outcome)(line)
}

/// The table keeps to the rules at every seat.
pub open spec fn keeps_rules<T: Table>(table: T, rules: Rules) -> bool {
    &&& forall|seat: u64, seed: Option<u64>, p: Position| #[trigger]
        call_ensures(T::start, (&table, seat, seed), p) ==> ends_at(p, Seq::empty(), rules)
    &&& forall|seat: u64, line: &Vec<u16>, p: Position| #[trigger]
        call_ensures(T::play, (&table, seat, line), p) ==> ends_at(p, line@, rules)
}

/// The same game, with the players exchanged.
pub open spec fn mirrors(g: MatchGame, h: MatchGame, rules: Rules) -> bool {
    &&& h.line@ == g.line@
    &&& ends_at(g.position, g.line@, rules)
    &&& ends_at(h.position, h.line@, rules)
    &&& h.a_is_white == !g.a_is_white
    &&& h.done == g.done
    &&& h.ply == g.ply
    &&& h.rw == g.rw
}

/// The game in which the players have each other's colours.
pub open spec fn partner(i: int) -> int {
    if i % 2 == 0 {
        i + 1
    } else {
        i - 1
    }
}

/// Every game has its mirror image in its partner in the other match.
pub open spec fn all_mirror(games: Seq<MatchGame>, other: Seq<MatchGame>, rules: Rules) -> bool {
    &&& other.len() == games.len()
    &&& forall|i: int|
        0 <= i < games.len() ==> mirrors(#[trigger] games[i], other[partner(i)], rules)
}

/// Wins of one match are losses of the other.
proof fn lemma_mirrored_tally(
    games: Seq<MatchGame>,
    other: Seq<MatchGame>,
    n: nat,
    rules: Rules,
)
    requires
        n % 2 == 0,
        n <= games.len(),
        all_mirror(games, other, rules),
    ensures
        tally(other, n) == (tally(games, n).2, tally(games, n).1, tally(games, n).0),
    decreases n,
{
    if n > 0 {
        lemma_mirrored_tally(games, other, (n - 2) as nat, rules);
        assert(partner(n - 2) == n - 1 && partner(n - 1) == n - 2);
        assert(mirrors(games[n - 2], other[partner(n - 2)], rules));
        assert(mirrors(games[n - 1], other[partner(n - 1)], rules));
        let (w, d, l) = tally(games, (n - 2) as nat);
        assert(tally(games, (n - 1) as nat) == {
            let a = score_a(games[n - 2]);
            if a > 0 {
                (w + 1, d, l)
            } else if a < 0 {
                (w, d, l + 1)
            } else {
                (w, d + 1, l)
            }
        });
        assert(tally(other, (n - 1) as nat) == {
            let a = score_a(other[n - 2]);
            if a > 0 {
                (l + 1, d, w)
            } else if a < 0 {
                (l, d, w + 1)
            } else {
                (l, d + 1, w)
            }
        });
    }
}

/// What a half of a round makes of game `i`, when the player of that half follows `choice`.
proof fn lemma_half<P: Player, T: Table>(
    base: Seq<MatchGame>,
    before: Seq<MatchGame>,
    after: Seq<MatchGame>,
    first_player: bool,
    player: P,
    choice: spec_fn(Seq<u16>) -> u16,
    opening_plies: usize,
    max_plies: usize,
    table: T,
    i: int,
)
    requires
        half_round(
            before,
            after,
            movers(base, base.len(), first_player),
            player,
            opening_plies,
            max_plies,
            table,
        ),
        chooses(player, choice),
        before.len() == base.len() <= usize::MAX,
        0 <= i < base.len(),
    ensures
        after.len() == before.len(),
        !base[i].done && (base[i].position.white_to_move == base[i].a_is_white) == first_player
            ==> plays_handle(
            before[i],
            after[i],
            table,
            i as u64,
            choice(before[i].line@),
            max_plies as int,
        ),
        base[i].done || (base[i].position.white_to_move == base[i].a_is_white) != first_player
            ==> after[i] == before[i],
{
    let group = movers(base, base.len(), first_player);
    lemma_movers(base, base.len(), first_player);
    if group.len() > 0 {
        let (games, asked, moves) = choose|
            games: Vec<MatchGame>,
            asked: Vec<usize>,
            moves: Vec<u16>,
        |
            {
                &&& #[trigger] call_ensures(
                    P::select_moves,
                    (&player, &games, &asked, opening_plies),
                    moves,
                )
                &&& games@ == before
                &&& asked@ == group
                &&& moves@.len() >= group.len()
                &&& plays_moves(before, after, group, moves@, table, max_plies as int)
            };
        if !base[i].done && (base[i].position.white_to_move == base[i].a_is_white)
            == first_player {
            assert(group.contains(i as usize));
            let k = choose|k: int| 0 <= k < group.len() && group[k] == i as usize;
            assert(moves@[k] == choice(games@[asked@[k] as int].line@));
            assert(plays_handle(
                before[group[k] as int],
                after[group[k] as int],
                table,
                group[k] as u64,
                moves@[k],
                max_plies as int,
            ));
        } else {
            if group.contains(i as usize) {
                let k = choose|k: int| 0 <= k < group.len() && group[k] == i as usize;
                assert(group[k] == i);
            }
            assert(after[i] == before[i]);
        }
    }
}

/// What a round makes of game `i`: it is left alone when it is over, and otherwise whoever is
/// to move follows their choice.
proof fn lemma_round<P: Player, Q: Player, T: Table>(
    before: Seq<MatchGame>,
    after: Seq<MatchGame>,
    player_a: P,
    player_b: Q,
    choice_a: spec_fn(Seq<u16>) -> u16,
    choice_b: spec_fn(Seq<u16>) -> u16,
    opening_plies: usize,
    max_plies: usize,
    table: T,
    i: int,
)
    requires
        round(before, after, player_a, player_b, opening_plies, max_plies, table),
        chooses(player_a, choice_a),
        chooses(player_b, choice_b),
        before.len() <= usize::MAX,
        0 <= i < before.len(),
    ensures
        after.len() == before.len(),
        before[i].done ==> after[i] == before[i],
        !before[i].done ==> plays_handle(
            before[i],
            after[i],
            table,
            i as u64,
            if before[i].position.white_to_move == before[i].a_is_white {
                choice_a(before[i].line@)
            } else {
                choice_b(before[i].line@)
            },
            max_plies as int,
        ),
{
    let mid = choose|mid: Seq<MatchGame>| #[trigger]
        half_round(
            before,
            mid,
            movers(before, before.len(), true),
            player_a,
            opening_plies,
            max_plies,
            table,
        ) && half_round(
            mid,
            after,
            movers(before, before.len(), false),
            player_b,
            opening_plies,
            max_plies,
            table,
        );
    lemma_half(
        before,
        before,
        mid,
        true,
        player_a,
        choice_a,
        opening_plies,
        max_plies,
        table,
        i,
    );
    lemma_half(
        before,
        mid,
        after,
        false,
        player_b,
        choice_b,
        opening_plies,
        max_plies,
        table,
        i,
    );
}

/// A round keeps the mirror images.
proof fn lemma_mirrored_round<P: Player, Q: Player, T: Table>(
    before: Seq<MatchGame>,
    after: Seq<MatchGame>,
    other_before: Seq<MatchGame>,
    other_after: Seq<MatchGame>,
    player_a: P,
    player_b: Q,
    choice_a: spec_fn(Seq<u16>) -> u16,
    choice_b: spec_fn(Seq<u16>) -> u16,
    opening_plies: usize,
    max_plies: usize,
    table: T,
    rules: Rules,
)
    requires
        round(before, after, player_a, player_b, opening_plies, max_plies, table),
        round(other_before, other_after, player_b, player_a, opening_plies, max_plies, table),
        chooses(player_a, choice_a),
        chooses(player_b, choice_b),
        keeps_rules(table, rules),
        0 < before.len() <= usize::MAX,
        before.len() % 2 == 0,
        all_mirror(before, other_before, rules),
    ensures
        after.len() == before.len(),
        all_mirror(after, other_after, rules),
{
    lemma_round(
        before,
        after,
        player_a,
        player_b,
        choice_a,
        choice_b,
        opening_plies,
        max_plies,
        table,
        0,
    );
    lemma_round(
        other_before,
        other_after,
        player_b,
        player_a,
        choice_b,
        choice_a,
        opening_plies,
        max_plies,
        table,
        0,
    );
    assert forall|i: int| 0 <= i < after.len() implies mirrors(
        #[trigger] after[i],
        other_after[partner(i)],
        rules,
    ) by {
        let j = partner(i);
        assert(mirrors(before[i], other_before[j], rules));
        lemma_round(
            before,
            after,
            player_a,
            player_b,
            choice_a,
            choice_b,
            opening_plies,
            max_plies,
            table,
            i,
        );
        lemma_round(
            other_before,
            other_after,
            player_b,
            player_a,
            choice_b,
            choice_a,
            opening_plies,
            max_plies,
            table,
            j,
        );
        if !before[i].done {
            let handle = if before[i].position.white_to_move == before[i].a_is_white {
                choice_a(before[i].line@)
            } else {
                choice_b(before[i].line@)
            };
            let next = choose|next: Position| #[trigger]
                call_ensures(T::play, (&table, i as u64, &after[i].line), next) && moved(
                    before[i],
                    after[i],
                    handle,
                    next,
                    max_plies as int,
                );
            let other_next = choose|next: Position| #[trigger]
                call_ensures(T::play, (&table, j as u64, &other_after[j].line), next) && moved(
                    other_before[j],
                    other_after[j],
                    handle,
                    next,
                    max_plies as int,
                );
            assert(ends_at(next, after[i].line@, rules));
            assert(ends_at(other_next, other_after[j].line@, rules));
        }
    }
}

/// Two matches of even length with the players exchanged stay mirror images of each other.
proof fn lemma_mirrored_rounds<P: Player, Q: Player, T: Table>(
    states: Seq<Seq<MatchGame>>,
    others: Seq<Seq<MatchGame>>,
    k: nat,
    n: int,
    player_a: P,
    player_b: Q,
    choice_a: spec_fn(Seq<u16>) -> u16,
    choice_b: spec_fn(Seq<u16>) -> u16,
    opening_plies: usize,
    max_plies: usize,
    table: T,
    rules: Rules,
)
    requires
        is_match(states, n, player_a, player_b, opening_plies, max_plies, table),
        is_match(others, n, player_b, player_a, opening_plies, max_plies, table),
        chooses(player_a, choice_a),
        chooses(player_b, choice_b),
        keeps_rules(table, rules),
        0 < n <= usize::MAX,
        n % 2 == 0,
        k < states.len(),
        k < others.len(),
    ensures
        states[k as int].len() == n,
        all_mirror(states[k as int], others[k as int], rules),
    decreases k,
{
    if k == 0 {
        assert forall|i: int| 0 <= i < n implies mirrors(
            #[trigger] states[0][i],
            others[0][partner(i)],
            rules,
        ) by {
            let g = states[0][i];
            let h = others[0][partner(i)];
            assert(g.line@ =~= Seq::<u16>::empty());
            assert(h.line@ =~= Seq::<u16>::empty());
        }
    } else {
        lemma_mirrored_rounds(
            states,
            others,
            (k - 1) as nat,
            n,
            player_a,
            player_b,
            choice_a,
            choice_b,
            opening_plies,
            max_plies,
            table,
            rules,
        );
        assert(round_at(states, k - 1, player_a, player_b, opening_plies, max_plies, table));
        assert(round_at(others, k - 1, player_b, player_a, opening_plies, max_plies, table));
        lemma_mirrored_round(
            states[k - 1],
            states[k as int],
            others[k - 1],
            others[k as int],
            player_a,
            player_b,
            choice_a,
            choice_b,
            opening_plies,
            max_plies,
            table,
            rules,
        );
    }
}

/// Once all games are over, no round changes any of them.
proof fn lemma_over_is_over<P: Player, Q: Player, T: Table>(
    states: Seq<Seq<MatchGame>>,
    m: nat,
    k: nat,
    n: int,
    player_a: P,
    player_b: Q,
    choice_a: spec_fn(Seq<u16>) -> u16,
    choice_b: spec_fn(Seq<u16>) -> u16,
    opening_plies: usize,
    max_plies: usize,
    table: T,
)
    requires
        is_match(states, n, player_a, player_b, opening_plies, max_plies, table),
        chooses(player_a, choice_a),
        chooses(player_b, choice_b),
        0 < n <= usize::MAX,
        m <= k < states.len(),
        states[m as int].len() == n,
        forall|i: int| 0 <= i < n ==> (#[trigger] states[m as int][i]).done,
    ensures
        states[k as int] == states[m as int],
    decreases k,
{
    if m < k {
        lemma_over_is_over(
            states,
            m,
            (k - 1) as nat,
            n,
            player_a,
            player_b,
            choice_a,
            choice_b,
            opening_plies,
            max_plies,
            table,
        );
        assert(round_at(states, k - 1, player_a, player_b, opening_plies, max_plies, table));
        let before = states[k - 1];
        let after = states[k as int];
        assert forall|i: int| 0 <= i < n implies after.len() == n && #[trigger] after[i]
            == before[i] by {
            lemma_round(
                before,
                after,
                player_a,
                player_b,
                choice_a,
                choice_b,
                opening_plies,
                max_plies,
                table,
                i,
            );
            assert(states[m as int][i].done);
        }
        assert(after[0] == before[0]);
        assert(after =~= before);
    }
}

/// Since the colours alternate, exchanging the players of a match with an even number of games
/// exchanges wins and losses and keeps the draws, for players whose moves depend on nothing but
/// what was played so far, at a table that keeps to the same rules at every seat.
pub proof fn exchanging_the_players_exchanges_wins_and_losses<P: Player, Q: Player, T: Table>(
    states: Seq<Seq<MatchGame>>,
    others: Seq<Seq<MatchGame>>,
    n: nat,
    player_a: P,
    player_b: Q,
    choice_a: spec_fn(Seq<u16>) -> u16,
    choice_b: spec_fn(Seq<u16>) -> u16,
    opening_plies: usize,
    max_plies: usize,
    table: T,
    rules: Rules,
)
    requires
        n % 2 == 0,
        n <= usize::MAX,
        is_match(states, n as int, player_a, player_b, opening_plies, max_plies, table),
        is_match(others, n as int, player_b, player_a, opening_plies, max_plies, table),
        chooses(player_a, choice_a),
        chooses(player_b, choice_b),
        keeps_rules(table, rules),
    ensures
        tally(others.last(), n) == (
            tally(states.last(), n).2,
            tally(states.last(), n).1,
            tally(states.last(), n).0,
        ),
{
    if n > 0 {
        let m: nat = if states.len() <= others.len() {
            (states.len() - 1) as nat
        } else {
            (others.len() - 1) as nat
        };
        let games = states[m as int];
        let other = others[m as int];
        lemma_mirrored_rounds(
            states,
            others,
            m,
            n as int,
            player_a,
            player_b,
            choice_a,
            choice_b,
            opening_plies,
            max_plies,
            table,
            rules,
        );
        assert forall|i: int| 0 <= i < n implies (#[trigger] games[i]).done && other[partner(
            i,
        )].done by {
            assert(mirrors(games[i], other[partner(i)], rules));
            assert(0 <= partner(i) < n);
            if states.len() <= others.len() {
                assert(states.last()[i].done);
            } else {
                assert(others.last()[partner(i)].done);
            }
        }
        assert forall|i: int| 0 <= i < n implies (#[trigger] other[i]).done by {
            assert(partner(partner(i)) == i);
            assert(games[partner(i)].done);
        }
        lemma_over_is_over(
            states,
            m,
            (states.len() - 1) as nat,
            n as int,
            player_a,
            player_b,
            choice_a,
            choice_b,
            opening_plies,
            max_plies,
            table,
        );
        lemma_over_is_over(
            others,
            m,
            (others.len() - 1) as nat,
            n as int,
            player_b,
            player_a,
            choice_b,
            choice_a,
            opening_plies,
            max_plies,
            table,
        );
        lemma_mirrored_tally(games, other, n, rules);
    }
}

/// Moves are drawn one position after the other: the generator starts as it is, rolls for each
/// position among as many sides as it has legal moves, and the move is the one at the place rolled.
pub proof fn random_moves_are_rolled_in_order(rng: StdRng, positions: Seq<&Position>, n: nat)
    requires
        n < positions.len(),
    ensures
        rng_after(rng, positions, 0) == rng,
        rng_after(rng, positions, n + 1) == rolled(
            rng_after(rng, positions, n),
            positions[n as int].legal@.len() as usize,
            usize::BITS,
        ).1,
        drawn_move(rng, positions, n as int) == positions[n as int].legal@[rolled(
            rng_after(rng, positions, n),
            positions[n as int].legal@.len() as usize,
            usize::BITS,
        ).0 as int].0,
{
    assert(positions[(n + 1) - 1] == positions[n as int]);
}

} // verus!

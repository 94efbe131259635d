//! Searching many games in step: one position of each game goes into a batch for the
//! network, and each game gets its row of the answer.

use crate::arith::{answers_fit, softmax_fits, table_wf, Arithmetic, Evaluator, Table};
use crate::buckets::row_of;
use crate::game::{game_wf, is_live, Game, Position};
use crate::ieee::{Real, Real32};
use crate::policy::{noise_step, root_noise};
use crate::search::{
    ascending, back_up_once, backs_up, blocked, expand_node, expands, moves_ok, path_within,
    walk_to_leaf, walks, Move,
};
use crate::tree::{bushy, nodes, visits_within, NodeView, ENC_LEN, POLICY_SIZE};
use vstd::prelude::*;

verus! {

/// Row `r` of a batch of policies.
pub open spec fn policy_row(logits: Seq<Real32>, r: int) -> Seq<Real32> {
    logits.subrange(r * POLICY_SIZE, (r + 1) * POLICY_SIZE)
}

/// Row `r` of a batch of policies starts at `r` times the length of a policy.
pub proof fn policies_lie_one_after_the_other(logits: Seq<Real32>, r: int)
    requires
        0 <= r,
        (r + 1) * POLICY_SIZE <= logits.len(),
    ensures
        policy_row(logits, r).len() == POLICY_SIZE,
        forall|x: int|
            0 <= x < POLICY_SIZE ==> #[trigger] policy_row(logits, r)[x] == logits[r * POLICY_SIZE
                + x],
{
    assert((r + 1) * POLICY_SIZE == r * POLICY_SIZE + POLICY_SIZE) by (nonlinear_arith);
    assert(0 <= r * POLICY_SIZE) by (nonlinear_arith)
        requires
            0 <= r,
    ;
}

/// The two games differ in their trees only.
pub open spec fn same_but_tree(before: Game, after: Game) -> bool {
    after == (Game { arena: after.arena, ..before })
}

/// What searching does not break: the game stays well-formed, its tree stays bushy, and a
/// root that has its moves keeps them.
pub open spec fn keeps_shape(before: Game, after: Game) -> bool {
    &&& same_but_tree(before, after)
    &&& game_wf(before) ==> game_wf(after)
    &&& bushy(nodes(before.arena@)) ==> bushy(nodes(after.arena@))
    &&& before.arena@[0].expanded ==> after.arena@[0].expanded
}

/// Every visit count is at most `bound`.
pub open spec fn all_visits_within(games: Seq<Game>, bound: int) -> bool {
    forall|i: int| 0 <= i < games.len() ==> visits_within(#[trigger] nodes(games[i].arena@), bound)
}

/// No visit count of a game grew by more than `d`.
pub open spec fn visits_grow(before: Game, after: Game, d: int) -> bool {
    forall|bound: int|
        bound >= 0 && #[trigger] visits_within(nodes(before.arena@), bound) ==> visits_within(
            nodes(after.arena@),
            bound + d,
        )
}

/// No visit count grew by more than `d`.
pub open spec fn all_grow(before: Seq<Game>, after: Seq<Game>, d: int) -> bool {
    &&& after.len() == before.len()
    &&& forall|i: int| 0 <= i < before.len() ==> visits_grow(before[i], #[trigger] after[i], d)
}

/// Games that are over stay as they are.
pub open spec fn done_untouched(before: Seq<Game>, after: Seq<Game>) -> bool {
    forall|i: int| 0 <= i < before.len() && before[i].done ==> #[trigger] after[i] == before[i]
}

/// Every game is well-formed.
pub open spec fn games_wf(games: Seq<Game>) -> bool {
    forall|i: int| 0 <= i < games.len() ==> game_wf(#[trigger] games[i])
}

/// Every game that is being played goes on, and its tree is bushy.
pub open spec fn games_live(games: Seq<Game>) -> bool {
    forall|i: int|
        0 <= i < games.len() && !(#[trigger] games[i]).done ==> is_live(games[i]) && bushy(
            nodes(games[i].arena@),
        )
}

// --- roots -------------------------------------------------------------------

/// Which of the first `n` games are being played and still need the moves at their root,
/// in order.
pub open spec fn bare_roots(games: Seq<Game>, n: nat) -> Seq<usize>
    decreases n,
{
    if n == 0 {
        Seq::empty()
    } else {
        let rest = bare_roots(games, (n - 1) as nat);
        if !games[n - 1].done && !games[n - 1].arena@[0].expanded {
            rest.push((n - 1) as usize)
        } else {
            rest
        }
    }
}

pub proof fn lemma_bare_roots(games: Seq<Game>, n: nat)
    requires
        n <= games.len() <= usize::MAX,
    ensures
        bare_roots(games, n).len() <= n,
        forall|k: int|
            0 <= k < bare_roots(games, n).len() ==> {
                let i = #[trigger] bare_roots(games, n)[k] as int;
                i < n && !games[i].done && !games[i].arena@[0].expanded
            },
        forall|k: int, l: int|
            0 <= k < l < bare_roots(games, n).len() ==> #[trigger] bare_roots(games, n)[k]
                < #[trigger] bare_roots(games, n)[l],
        forall|i: int|
            0 <= i < n && !(#[trigger] games[i]).done && !games[i].arena@[0].expanded
                ==> bare_roots(games, n).contains(i as usize),
    decreases n,
{
    if n > 0 {
        lemma_bare_roots(games, (n - 1) as nat);
        let rest = bare_roots(games, (n - 1) as nat);
        let all = bare_roots(games, n);
        assert forall|i: int|
            0 <= i < n && !(#[trigger] games[i]).done
                && !games[i].arena@[0].expanded implies all.contains(i as usize) by {
            if i < n - 1 {
                let k = choose|k: int| 0 <= k < rest.len() && rest[k] == i as usize;
                assert(all[k] == i as usize);
            } else {
                assert(all[all.len() - 1] == i as usize);
            }
        }
    }
}

/// Finds the games that are being played and still need the moves at their root.
pub fn roots_to_expand(games: &Vec<Game>) -> (need: Vec<usize>)
    requires
        games_wf(games@),
    ensures
        need@ == bare_roots(games@, games@.len()),
{
    let mut need: Vec<usize> = Vec::new();
    let mut i: usize = 0;
    while i < games.len()
        invariant
            0 <= i <= games@.len(),
            games_wf(games@),
            need@ == bare_roots(games@, i as nat),
        decreases games@.len() - i,
    {
        assert(game_wf(games@[i as int]));
        if !games[i].done && !games[i].arena[0].expanded {
            need.push(i);
        }
        i += 1;
    }
    need
}

/// The batch holds the positions of the given games, row by row.
pub open spec fn is_root_batch(games: Seq<Game>, need: Seq<usize>, enc: Seq<Real32>) -> bool {
    &&& enc.len() == need.len() * ENC_LEN
    &&& forall|k: int|
        0 <= k < need.len() ==> #[trigger] row_of(enc, k) == games[need[k] as int].position.enc@
}

/// Appending a row leaves the rows before it in place.
pub proof fn lemma_append_row(enc: Seq<Real32>, row: Seq<Real32>, n: int)
    requires
        0 <= n,
        enc.len() == n * ENC_LEN,
        row.len() == ENC_LEN,
    ensures
        (enc + row).len() == (n + 1) * ENC_LEN,
        row_of(enc + row, n) == row,
        forall|k: int| 0 <= k < n ==> #[trigger] row_of(enc + row, k) == row_of(enc, k),
{
    assert(row_of(enc + row, n) =~= row);
    assert forall|k: int| 0 <= k < n implies #[trigger] row_of(enc + row, k) == row_of(enc, k) by {
        assert((k + 1) * ENC_LEN <= n * ENC_LEN) by (nonlinear_arith)
            requires
                k + 1 <= n,
        ;
        assert(row_of(enc + row, k) =~= row_of(enc, k));
    }
}

/// Encodes the positions of the given games into a batch.
pub fn encode_roots(games: &Vec<Game>, need: &Vec<usize>) -> (enc: Vec<Real32>)
    requires
        games_wf(games@),
        forall|k: int| 0 <= k < need@.len() ==> #[trigger] need@[k] < games@.len(),
    ensures
        is_root_batch(games@, need@, enc@),
{
    let mut enc: Vec<Real32> = Vec::new();
    let mut k: usize = 0;
    while k < need.len()
        invariant
            0 <= k <= need@.len(),
            games_wf(games@),
            forall|j: int| 0 <= j < need@.len() ==> #[trigger] need@[j] < games@.len(),
            enc@.len() == k * ENC_LEN,
            forall|j: int|
                0 <= j < k ==> #[trigger] row_of(enc@, j)
                    == games@[need@[j] as int].position.enc@,
        decreases need@.len() - k,
    {
        let g = &games[need[k]];
        assert(game_wf(games@[need@[k as int] as int]));
        let ghost before = enc@;
        enc.extend_from_slice(g.position.enc.as_slice());
        proof {
            assert(enc@ =~= before + g.position.enc@);
            lemma_append_row(before, g.position.enc@, k as int);
            assert forall|j: int| 0 <= j < k + 1 implies #[trigger] row_of(enc@, j)
                == games@[need@[j] as int].position.enc@ by {
                if j < k {
                    assert(row_of(enc@, j) == row_of(before, j));
                }
            }
        }
        k += 1;
    }
    enc
}

/// The tree of game `i` has room for the moves of its position.
pub open spec fn root_fits(games: Seq<Game>, i: int) -> bool {
    games[i].arena@.len() + games[i].position.legal@.len() <= u32::MAX
}

/// Every tree has room for the moves of its position.
pub open spec fn roots_fit(games: Seq<Game>, need: Seq<usize>) -> bool {
    forall|k: int| 0 <= k < need.len() ==> #[trigger] root_fits(games, need[k] as int)
}

/// Finds a game whose tree has no room for the moves of its position.
pub fn find_full_root(games: &Vec<Game>, need: &Vec<usize>) -> (full: Option<usize>)
    requires
        games_wf(games@),
        forall|k: int| 0 <= k < need@.len() ==> #[trigger] need@[k] < games@.len(),
    ensures
        full is None <==> roots_fit(games@, need@),
        full matches Some(i) ==> need@.contains(i) && !root_fits(games@, i as int),
{
    let mut k: usize = 0;
    while k < need.len()
        invariant
            0 <= k <= need@.len(),
            games_wf(games@),
            forall|j: int| 0 <= j < need@.len() ==> #[trigger] need@[j] < games@.len(),
            forall|j: int| 0 <= j < k ==> #[trigger] root_fits(games@, need@[j] as int),
        decreases need@.len() - k,
    {
        let g = &games[need[k]];
        assert(game_wf(games@[need@[k as int] as int]));
        if g.position.legal.len() > u32::MAX as usize - g.arena.len() {
            assert(!root_fits(games@, need@[k as int] as int));
            return Some(need[k]);
        }
        k += 1;
    }
    None
}

/// Game `before` got the moves at its root from row `k` of the policies.
pub open spec fn gets_root<A: Arithmetic>(
    before: Game,
    after: Game,
    logits: Seq<Real32>,
    k: int,
    arith: A,
) -> bool {
    &&& same_but_tree(before, after)
    &&& expands(
        nodes(before.arena@),
        nodes(after.arena@),
        0,
        before.position.legal@,
        policy_row(logits, k),
        arith,
    )
}

/// The given games got the moves at their roots, each from its row of the policies, and
/// the other games are as they were.
pub open spec fn expands_roots<A: Arithmetic>(
    before: Seq<Game>,
    after: Seq<Game>,
    need: Seq<usize>,
    logits: Seq<Real32>,
    arith: A,
) -> bool {
    &&& after.len() == before.len()
    &&& forall|k: int|
        0 <= k < need.len() ==> gets_root(
            before[#[trigger] need[k] as int],
            after[need[k] as int],
            logits,
            k,
            arith,
        )
    &&& forall|i: int|
        0 <= i < before.len() && !need.contains(i as usize) ==> #[trigger] after[i] == before[i]
}

/// What generating the moves at the roots does not break.
pub open spec fn roots_keep(before: Seq<Game>, after: Seq<Game>) -> bool {
    &&& after.len() == before.len()
    &&& forall|i: int|
        0 <= i < before.len() ==> {
            &&& same_but_tree(before[i], #[trigger] after[i])
            &&& game_wf(after[i])
            &&& before[i].arena@[0].expanded ==> after[i].arena@[0].expanded
            &&& bushy(nodes(before[i].arena@)) && before[i].position.legal@.len() > 0 ==> bushy(
                nodes(after[i].arena@),
            )
        }
    &&& all_grow(before, after, 0)
}

/// Generates the moves at the roots of the given games, each from its row of the policies.
pub fn expand_roots<A: Arithmetic>(
    games: &mut Vec<Game>,
    need: &Vec<usize>,
    logits: &Vec<Real32>,
    arith: &A,
)
    requires
        games_wf(old(games)@),
        softmax_fits(*arith),
        need@.len() * POLICY_SIZE <= logits@.len(),
        forall|k: int| 0 <= k < need@.len() ==> #[trigger] need@[k] < old(games)@.len(),
        forall|k: int, l: int|
            0 <= k < l < need@.len() ==> #[trigger] need@[k] < #[trigger] need@[l],
        roots_fit(old(games)@, need@),
    ensures
        expands_roots(old(games)@, final(games)@, need@, logits@, *arith),
        roots_keep(old(games)@, final(games)@),
        forall|k: int|
            0 <= k < need@.len() ==> final(games)@[#[trigger] need@[k] as int].arena@[0].expanded,
{
    let ghost start = games@;
    assert(logits@.len() == logits.len());
    let mut k: usize = 0;
    while k < need.len()
        invariant
            0 <= k <= need@.len(),
            games_wf(start),
            softmax_fits(*arith),
            need@.len() * POLICY_SIZE <= logits@.len() <= usize::MAX,
            forall|j: int| 0 <= j < need@.len() ==> #[trigger] need@[j] < start.len(),
            forall|j: int, l: int|
                0 <= j < l < need@.len() ==> #[trigger] need@[j] < #[trigger] need@[l],
            roots_fit(start, need@),
            games@.len() == start.len(),
            forall|j: int|
                0 <= j < k ==> gets_root(
                    start[#[trigger] need@[j] as int],
                    games@[need@[j] as int],
                    logits@,
                    j,
                    *arith,
                ) && games@[need@[j] as int].arena@[0].expanded,
            forall|i: int|
                0 <= i < start.len() && !need@.take(k as int).contains(i as usize)
                    ==> #[trigger] games@[i] == start[i],
            roots_keep(start, games@),
        decreases need@.len() - k,
    {
        let i: usize = need[k];
        let ghost before = games@;
        proof {
            if need@.take(k as int).contains(i) {
                let j = choose|j: int| 0 <= j < k && need@.take(k as int)[j] == i;
                assert(need@[j] == i);
                assert(need@[j] < need@[k as int]);
            }
            assert(before[i as int] == start[i as int]);
            assert(game_wf(start[i as int]));
            assert(root_fits(start, i as int));
            assert((k + 1) * POLICY_SIZE <= need@.len() * POLICY_SIZE) by (nonlinear_arith)
                requires
                    k + 1 <= need@.len(),
            ;
        }
        let from: usize = k * POLICY_SIZE;
        let row = vstd::slice::slice_subrange(logits.as_slice(), from, from + POLICY_SIZE);
        assert(row@ =~= policy_row(logits@, k as int));
        expand_root(&mut games[i], row, arith);
        proof {
            assert forall|j: int| 0 <= j < k + 1 implies gets_root(
                start[#[trigger] need@[j] as int],
                games@[need@[j] as int],
                logits@,
                j,
                *arith,
            ) && games@[need@[j] as int].arena@[0].expanded by {
                if j < k {
                    assert(need@[j] < need@[k as int]);
                    assert(games@[need@[j] as int] == before[need@[j] as int]);
                }
            }
            assert forall|l: int|
                0 <= l < start.len() && !need@.take(k + 1).contains(
                    l as usize,
                ) implies #[trigger] games@[l] == start[l] by {
                if need@.take(k as int).contains(l as usize) {
                    let j = choose|j: int| 0 <= j < k && need@.take(k as int)[j] == l as usize;
                    assert(need@.take(k + 1)[j] == l as usize);
                }
                if l == i {
                    assert(need@.take(k + 1)[k as int] == i);
                }
                assert(before[l] == start[l]);
            }
            assert forall|l: int| 0 <= l < start.len() implies {
                &&& same_but_tree(start[l], #[trigger] games@[l])
                &&& game_wf(games@[l])
                &&& start[l].arena@[0].expanded ==> games@[l].arena@[0].expanded
                &&& bushy(nodes(start[l].arena@)) && start[l].position.legal@.len() > 0 ==> bushy(
                    nodes(games@[l].arena@),
                )
            } by {
                assert(same_but_tree(start[l], before[l]));
            }
            assert forall|l: int| 0 <= l < start.len() implies visits_grow(
                start[l],
                #[trigger] games@[l],
                0,
            ) by {
                assert(visits_grow(start[l], before[l], 0));
            }
        }
        k += 1;
    }
    assert(need@.take(k as int) =~= need@);
}

/// Generates the moves at the root of one game.
fn expand_root<A: Arithmetic>(g: &mut Game, row: &[Real32], arith: &A)
    requires
        game_wf(*old(g)),
        softmax_fits(*arith),
        row@.len() == POLICY_SIZE,
        old(g).arena@.len() + old(g).position.legal@.len() <= u32::MAX,
    ensures
        same_but_tree(*old(g), *final(g)),
        game_wf(*final(g)),
        expands(
            nodes(old(g).arena@),
            nodes(final(g).arena@),
            0,
            old(g).position.legal@,
            row@,
            *arith,
        ),
        final(g).arena@[0].expanded,
        bushy(nodes(old(g).arena@)) && old(g).position.legal@.len() > 0 ==> bushy(
            nodes(final(g).arena@),
        ),
        visits_grow(*old(g), *final(g), 0),
{
    expand_node(&mut g.arena, 0, &g.position.legal, row, arith);
}

// --- noise -------------------------------------------------------------------

/// Game `before` got its noise at the root, if it is being played and has its moves there.
pub open spec fn gets_root_noise<A: Arithmetic, T: Table>(
    before: Game,
    after: Game,
    arith: A,
    table: T,
    seat: u64,
) -> bool {
    if !before.done && before.arena@[0].expanded {
        &&& same_but_tree(before, after)
        &&& noise_step(
            nodes(before.arena@),
            nodes(after.arena@),
            true,
            arith,
            table,
            seat,
            before.line,
        )
    } else {
        after == before
    }
}

/// Noise goes to the roots of the games that are being played and have their moves there; every
/// other game stays as it is.
pub proof fn noise_goes_to_games_in_play<A: Arithmetic, T: Table>(
    before: Game,
    after: Game,
    arith: A,
    table: T,
    seat: u64,
)
    requires
        gets_root_noise(before, after, arith, table, seat),
    ensures
        !before.done && before.arena@[0].expanded ==> crate::policy::gets_noise(
            nodes(before.arena@),
            nodes(after.arena@),
            0,
            arith,
            table,
            seat,
            before.line,
        ),
        before.done || !before.arena@[0].expanded ==> after == before,
        after.line == before.line,
        after.position == before.position,
        after.history == before.history,
        after.done == before.done,
        after.result == before.result,
{
}

/// Every game got its noise at the root.
pub open spec fn noises_roots<A: Arithmetic, T: Table>(
    before: Seq<Game>,
    after: Seq<Game>,
    seats: Seq<u64>,
    arith: A,
    table: T,
) -> bool {
    &&& after.len() == before.len()
    &&& forall|i: int|
        0 <= i < before.len() ==> gets_root_noise(
            before[i],
            #[trigger] after[i],
            arith,
            table,
            seats[i],
        )
}

/// Mixes noise into the priors at the root of every game that is being played.
pub fn noise_roots<A: Arithmetic, T: Table>(
    games: &mut Vec<Game>,
    seats: &Vec<u64>,
    arith: &A,
    table: &T,
)
    requires
        games_wf(old(games)@),
        seats@.len() == old(games)@.len(),
    ensures
        noises_roots(old(games)@, final(games)@, seats@, *arith, *table),
        shapes_kept(old(games)@, final(games)@),
        all_grow(old(games)@, final(games)@, 0),
{
    let ghost start = games@;
    let mut i: usize = 0;
    while i < games.len()
        invariant
            0 <= i <= games@.len(),
            games@.len() == start.len(),
            seats@.len() == start.len(),
            games_wf(start),
            forall|l: int|
                0 <= l < i ==> gets_root_noise(
                    start[l],
                    #[trigger] games@[l],
                    *arith,
                    *table,
                    seats@[l],
                ),
            forall|l: int| i <= l < start.len() ==> #[trigger] games@[l] == start[l],
            shapes_kept(start, games@),
            all_grow(start, games@, 0),
        decreases games@.len() - i,
    {
        let ghost before = games@;
        assert(before[i as int] == start[i as int]);
        assert(game_wf(start[i as int]));
        if !games[i].done && games[i].arena[0].expanded {
            noise_root(&mut games[i], arith, table, seats[i]);
        }
        proof {
            assert forall|l: int| 0 <= l < i + 1 implies gets_root_noise(
                start[l],
                #[trigger] games@[l],
                *arith,
                *table,
                seats@[l],
            ) by {
                if l < i {
                    assert(games@[l] == before[l]);
                }
            }
            assert forall|l: int| i + 1 <= l < start.len() implies #[trigger] games@[l]
                == start[l] by {
                assert(games@[l] == before[l]);
            }
            assert forall|l: int| 0 <= l < start.len() implies keeps_shape(
                start[l],
                #[trigger] games@[l],
            ) by {
                assert(keeps_shape(start[l], before[l]));
            }
            assert forall|l: int| 0 <= l < start.len() implies visits_grow(
                start[l],
                #[trigger] games@[l],
                0,
            ) by {
                assert(visits_grow(start[l], before[l], 0));
            }
        }
        i += 1;
    }
}

/// Searching broke none of the games.
pub open spec fn shapes_kept(before: Seq<Game>, after: Seq<Game>) -> bool {
    &&& after.len() == before.len()
    &&& forall|i: int| 0 <= i < before.len() ==> keeps_shape(before[i], #[trigger] after[i])
}

/// Mixes noise into the priors at the root of one game.
fn noise_root<A: Arithmetic, T: Table>(g: &mut Game, arith: &A, table: &T, seat: u64)
    requires
        game_wf(*old(g)),
    ensures
        noise_step(
            nodes(old(g).arena@),
            nodes(final(g).arena@),
            true,
            *arith,
            *table,
            seat,
            old(g).line,
        ),
        keeps_shape(*old(g), *final(g)),
        visits_grow(*old(g), *final(g), 0),
{
    root_noise(&mut g.arena, true, arith, table, seat, &g.line);
}

// --- leaves ------------------------------------------------------------------

/// The leaf that one simulation of a game led to.
pub struct Leaf {
    /// Which game.
    pub game: usize,
    /// Arena indices from the root to the leaf.
    pub path: Vec<usize>,
    /// The legal moves at the leaf.
    pub legal: Vec<Move>,
    /// Value of a finished position.
    pub terminal: Option<Real>,
    /// Row of the batch, unless the position is finished.
    pub eval_row: Option<usize>,
}

/// Which of the first `n` games are being played, in order.
pub open spec fn in_play(games: Seq<Game>, n: nat) -> Seq<usize>
    decreases n,
{
    if n == 0 {
        Seq::empty()
    } else {
        let rest = in_play(games, (n - 1) as nat);
        if !games[n - 1].done {
            rest.push((n - 1) as usize)
        } else {
            rest
        }
    }
}

/// How many of the first `n` leaves need an evaluation.
pub open spec fn rows_before(leaves: Seq<Leaf>, n: nat) -> nat
    decreases n,
{
    if n == 0 {
        0
    } else {
        rows_before(leaves, (n - 1) as nat) + if leaves[n - 1].terminal is None {
            1nat
        } else {
            0
        }
    }
}

/// How many of the leaves need an evaluation.
pub open spec fn rows_in(leaves: Seq<Leaf>) -> nat {
    rows_before(leaves, leaves.len())
}

/// The leaf is where a walk down the tree of the game led, at position `at`.
pub open spec fn reached<A: Arithmetic, T: Table>(
    g: Game,
    leaf: Leaf,
    at: Position,
    arith: A,
    table: T,
    seat: u64,
) -> bool {
    &&& exists|handles: Vec<u16>|
        walks(g.arena@, arith, leaf.path@, handles@) && #[trigger] call_ensures(
            T::look,
            (&table, seat, &g.line, &handles),
            at,
        )
    &&& leaf.legal@ == at.legal@
    &&& leaf.terminal == at.terminal
}

/// The `k`-th leaf was reached in its game; unless its position is finished, it has the next
/// row of the batch, which holds its position.
pub open spec fn leaf_gathered<A: Arithmetic, T: Table>(
    games: Seq<Game>,
    seats: Seq<u64>,
    leaves: Seq<Leaf>,
    enc: Seq<Real32>,
    k: int,
    arith: A,
    table: T,
) -> bool {
    let i = leaves[k].game as int;
    let r = rows_before(leaves, k as nat);
    exists|at: Position| #[trigger]
        reached(games[i], leaves[k], at, arith, table, seats[i]) && if at.terminal is Some {
            leaves[k].eval_row is None
        } else {
            leaves[k].eval_row == Some(r as usize) && row_of(enc, r as int) == at.enc@
        }
}

/// One leaf was reached in each game that is being played, in order, and the batch holds
/// the positions that need an evaluation.
pub open spec fn gathers<A: Arithmetic, T: Table>(
    games: Seq<Game>,
    seats: Seq<u64>,
    leaves: Seq<Leaf>,
    enc: Seq<Real32>,
    rows: int,
    arith: A,
    table: T,
) -> bool {
    &&& leaves.len() == in_play(games, games.len()).len()
    &&& forall|k: int|
        0 <= k < leaves.len() ==> (#[trigger] leaves[k]).game == in_play(games, games.len())[k]
    &&& rows == rows_in(leaves)
    &&& enc.len() == rows * ENC_LEN
    &&& forall|k: int|
        0 <= k < leaves.len() ==> #[trigger] leaf_gathered(
            games,
            seats,
            leaves,
            enc,
            k,
            arith,
            table,
        )
}

/// A leaf can be scattered back into its game from a batch with `rows` rows: it lies at
/// the end of a path in the tree, and it has a value or a row.
pub open spec fn leaf_wf(games: Seq<Game>, leaf: Leaf, rows: int) -> bool {
    &&& leaf.game < games.len()
    &&& !games[leaf.game as int].done
    &&& leaf.path@.len() > 0
    &&& path_within(leaf.path@, games[leaf.game as int].arena@.len())
    &&& ascending(leaf.path@)
    &&& moves_ok(leaf.legal@)
    &&& match leaf.eval_row {
        Some(r) => leaf.terminal is None && r < rows && leaf.legal@.len() > 0,
        None => leaf.terminal is Some,
    }
}

/// Every leaf can be scattered back, and no two belong to one game.
pub open spec fn leaves_wf(games: Seq<Game>, leaves: Seq<Leaf>) -> bool {
    &&& forall|k: int|
        0 <= k < leaves.len() ==> #[trigger] leaf_wf(games, leaves[k], rows_in(leaves) as int)
    &&& forall|k: int, l: int|
        0 <= k < l < leaves.len() ==> (#[trigger] leaves[k]).game < (#[trigger] leaves[l]).game
}

proof fn lemma_rows_before(leaves: Seq<Leaf>, more: Leaf, n: nat)
    requires
        n <= leaves.len(),
    ensures
        rows_before(leaves.push(more), n) == rows_before(leaves, n),
        rows_before(leaves, n) <= n,
    decreases n,
{
    if n > 0 {
        lemma_rows_before(leaves, more, (n - 1) as nat);
        assert(leaves.push(more)[n - 1] == leaves[n - 1]);
    }
}

/// Why a batch could not be completed.
#[derive(Clone, Copy, PartialEq, Eq, Structural, Debug)]
pub enum Halt {
    /// The walk in this game came to a node with children of which none can be selected.
    Stuck(usize),
    /// The tree of this game has no room for more nodes.
    Full(usize),
}

/// Walks down the tree of every game that is being played, and gathers the positions that
/// need an evaluation into a batch. Gives the leaves, the batch and its number of rows.
pub fn gather_leaves<A: Arithmetic, T: Table>(
    games: &Vec<Game>,
    seats: &Vec<u64>,
    arith: &A,
    table: &T,
) -> (out: Result<(Vec<Leaf>, Vec<Real32>, usize), Halt>)
    requires
        games_wf(games@),
        seats@.len() == games@.len(),
        table_wf(*table),
    ensures
        match out {
            Ok((leaves, enc, rows)) => {
                &&& gathers(games@, seats@, leaves@, enc@, rows as int, *arith, *table)
                &&& leaves_wf(games@, leaves@)
            },
            Err(halt) => halt matches Halt::Stuck(i) && i < games@.len() && !games@[i as int].done
                && blocked(games@[i as int].arena@, *arith),
        },
{
    let mut leaves: Vec<Leaf> = Vec::new();
    let mut enc: Vec<Real32> = Vec::new();
    let mut rows: usize = 0;
    let mut i: usize = 0;
    while i < games.len()
        invariant
            0 <= i <= games@.len(),
            games_wf(games@),
            seats@.len() == games@.len(),
            table_wf(*table),
            leaves@.len() <= i,
            leaves@.len() == in_play(games@, i as nat).len(),
            forall|k: int|
                0 <= k < leaves@.len() ==> (#[trigger] leaves@[k]).game == in_play(
                    games@,
                    i as nat,
                )[k] && leaves@[k].game < i,
            rows == rows_in(leaves@),
            rows <= leaves@.len(),
            enc@.len() == rows * ENC_LEN,
            forall|k: int|
                0 <= k < leaves@.len() ==> #[trigger] leaf_gathered(
                    games@,
                    seats@,
                    leaves@,
                    enc@,
                    k,
                    *arith,
                    *table,
                ),
            leaves_wf(games@, leaves@),
        decreases games@.len() - i,
    {
        let g = &games[i];
        assert(game_wf(games@[i as int]));
        if g.done {
            i += 1;
            continue;
        }
        match walk_to_leaf(&g.arena, 0, arith) {
            None => {
                assert(blocked(games@[i as int].arena@, *arith));
                return Err(Halt::Stuck(i));
            },
            Some((path, handles)) => {
                let ghost earlier = (leaves@, enc@, rows);
                assert(walks(g.arena@, *arith, path@, handles@));
                let at = table.look(seats[i], &g.line, &handles);
                let ghost place = at;
                assert(call_ensures(T::look, (table, seats@[i as int], &g.line, &handles), place));
                let Position { legal, enc: planes, white_to_move: _, outcome: _, terminal } = at;
                let eval_row: Option<usize> = if terminal.is_none() {
                    enc.extend_from_slice(planes.as_slice());
                    let r = rows;
                    rows += 1;
                    Some(r)
                } else {
                    None
                };
                let leaf = Leaf { game: i, path, legal, terminal, eval_row };
                assert(reached(games@[i as int], leaf, place, *arith, *table, seats@[i as int]));
                leaves.push(leaf);
                proof {
                    let n = earlier.0.len();
                    assert(leaves@ == earlier.0.push(leaf));
                    lemma_rows_before(earlier.0, leaf, n);
                    if terminal is None {
                        assert(enc@ =~= earlier.1 + planes@);
                        lemma_append_row(earlier.1, planes@, earlier.2 as int);
                    }
                    assert forall|k: int| 0 <= k < leaves@.len() implies #[trigger] leaf_gathered(
                        games@,
                        seats@,
                        leaves@,
                        enc@,
                        k,
                        *arith,
                        *table,
                    ) by {
                        if k < n {
                            assert(leaf_gathered(
                                games@,
                                seats@,
                                earlier.0,
                                earlier.1,
                                k,
                                *arith,
                                *table,
                            ));
                            let old_leaf = earlier.0[k];
                            assert(leaves@[k] == old_leaf);
                            lemma_rows_before(earlier.0, leaf, k as nat);
                            lemma_rows_below(earlier.0, k as nat, n);
                            let j = old_leaf.game as int;
                            let r = rows_before(earlier.0, k as nat);
                            let seen = choose|seen: Position| #[trigger]
                                reached(games@[j], old_leaf, seen, *arith, *table, seats@[j])
                                    && if seen.terminal is Some {
                                    old_leaf.eval_row is None
                                } else {
                                    old_leaf.eval_row == Some(r as usize) && row_of(
                                        earlier.1,
                                        r as int,
                                    ) == seen.enc@
                                };
                            if seen.terminal is None {
                                assert(r < earlier.2);
                                assert(row_of(enc@, r as int) == row_of(earlier.1, r as int));
                            }
                            assert(reached(
                                games@[j],
                                leaves@[k],
                                seen,
                                *arith,
                                *table,
                                seats@[j],
                            ));
                        } else {
                            assert(leaves@[k] == leaf);
                            assert(rows_before(leaves@, k as nat) == earlier.2);
                            if place.terminal is None {
                                assert(row_of(enc@, earlier.2 as int) == place.enc@);
                            }
                            assert(reached(
                                games@[leaves@[k].game as int],
                                leaves@[k],
                                place,
                                *arith,
                                *table,
                                seats@[leaves@[k].game as int],
                            ));
                        }
                    }
                    assert forall|k: int| 0 <= k < leaves@.len() implies (
                    #[trigger] leaves@[k]).game == in_play(games@, (i + 1) as nat)[k]
                        && leaves@[k].game < i + 1 by {
                        if k < n {
                            assert(leaves@[k] == earlier.0[k]);
                        }
                    }
                    assert forall|k: int| 0 <= k < leaves@.len() implies #[trigger] leaf_wf(
                        games@,
                        leaves@[k],
                        rows as int,
                    ) by {
                        if k < n {
                            assert(leaf_wf(games@, earlier.0[k], earlier.2 as int));
                        }
                    }
                    assert forall|k: int, l: int| 0 <= k < l < leaves@.len() implies (
                    #[trigger] leaves@[k]).game < (#[trigger] leaves@[l]).game by {
                        assert(leaves@[k] == earlier.0[k]);
                        if l < n {
                            assert(leaves@[l] == earlier.0[l]);
                        }
                    }
                }
            },
        }
        i += 1;
    }
    Ok((leaves, enc, rows))
}

proof fn lemma_rows_below(leaves: Seq<Leaf>, k: nat, n: nat)
    requires
        k < n <= leaves.len(),
    ensures
        rows_before(leaves, k) <= rows_before(leaves, n),
        leaves[k as int].terminal is None ==> rows_before(leaves, k) < rows_before(leaves, n),
    decreases n,
{
    if k < n - 1 {
        lemma_rows_below(leaves, k, (n - 1) as nat);
    }
}

/// The tree of the leaf's game has room for the moves at the leaf.
pub open spec fn leaf_fits(games: Seq<Game>, leaf: Leaf) -> bool {
    leaf.eval_row is Some ==> games[leaf.game as int].arena@.len() + leaf.legal@.len() <= u32::MAX
}

/// Every tree has room for the moves at its leaf.
pub open spec fn leaves_fit(games: Seq<Game>, leaves: Seq<Leaf>) -> bool {
    forall|k: int| 0 <= k < leaves.len() ==> #[trigger] leaf_fits(games, leaves[k])
}

/// Finds a game whose tree has no room for the moves at its leaf.
pub fn find_full(games: &Vec<Game>, leaves: &Vec<Leaf>) -> (full: Option<usize>)
    requires
        games_wf(games@),
        forall|k: int| 0 <= k < leaves@.len() ==> (#[trigger] leaves@[k]).game < games@.len(),
    ensures
        full is None <==> leaves_fit(games@, leaves@),
        full matches Some(i) ==> exists|k: int|
            0 <= k < leaves@.len() && !#[trigger] leaf_fits(games@, leaves@[k]) && leaves@[k].game
                == i,
{
    let mut k: usize = 0;
    while k < leaves.len()
        invariant
            0 <= k <= leaves@.len(),
            games_wf(games@),
            forall|j: int| 0 <= j < leaves@.len() ==> (#[trigger] leaves@[j]).game < games@.len(),
            forall|j: int| 0 <= j < k ==> #[trigger] leaf_fits(games@, leaves@[j]),
        decreases leaves@.len() - k,
    {
        let leaf = &leaves[k];
        let g = &games[leaf.game];
        assert(game_wf(games@[leaf.game as int]));
        if leaf.eval_row.is_some() && leaf.legal.len() > u32::MAX as usize - g.arena.len() {
            assert(!leaf_fits(games@, leaves@[k as int]));
            return Some(leaf.game);
        }
        k += 1;
    }
    None
}

/// Tells whether every leaf can be scattered back.
pub fn check_leaves(games: &Vec<Game>, leaves: &Vec<Leaf>) -> (ok: bool)
    requires
        games_wf(games@),
    ensures
        ok == leaves_wf(games@, leaves@),
{
    let mut rows: usize = 0;
    let mut n: usize = 0;
    while n < leaves.len()
        invariant
            0 <= n <= leaves@.len(),
            rows == rows_before(leaves@, n as nat),
            rows <= n,
        decreases leaves@.len() - n,
    {
        if leaves[n].terminal.is_none() {
            rows += 1;
        }
        n += 1;
    }
    let mut k: usize = 0;
    while k < leaves.len()
        invariant
            0 <= k <= leaves@.len(),
            games_wf(games@),
            rows == rows_in(leaves@),
            forall|j: int| 0 <= j < k ==> #[trigger] leaf_wf(games@, leaves@[j], rows as int),
            forall|j: int, l: int|
                0 <= j < l < k ==> (#[trigger] leaves@[j]).game < (#[trigger] leaves@[l]).game,
        decreases leaves@.len() - k,
    {
        if !check_leaf(games, &leaves[k], rows) {
            assert(!leaf_wf(games@, leaves@[k as int], rows as int));
            return false;
        }
        if k > 0 && leaves[k - 1].game >= leaves[k].game {
            assert(!(leaves@[k - 1].game < leaves@[k as int].game));
            return false;
        }
        proof {
            assert forall|j: int, l: int| 0 <= j < l < k + 1 implies (#[trigger] leaves@[j]).game
                < (#[trigger] leaves@[l]).game by {
                if l == k && j < k - 1 {
                    assert(leaves@[j].game < leaves@[k - 1].game);
                }
            }
        }
        k += 1;
    }
    true
}

/// Tells whether a leaf can be scattered back from a batch with so many rows.
fn check_leaf(games: &Vec<Game>, leaf: &Leaf, rows: usize) -> (ok: bool)
    requires
        games_wf(games@),
    ensures
        ok == leaf_wf(games@, *leaf, rows as int),
{
    if leaf.game >= games.len() || games[leaf.game].done || leaf.path.len() == 0 {
        return false;
    }
    let n: usize = games[leaf.game].arena.len();
    let mut k: usize = 0;
    while k < leaf.path.len()
        invariant
            0 <= k <= leaf.path@.len(),
            leaf.game < games@.len(),
            n == games@[leaf.game as int].arena@.len(),
            path_within(leaf.path@.take(k as int), n as nat),
            forall|j: int, l: int|
                0 <= j < l < k ==> #[trigger] leaf.path@[j] < #[trigger] leaf.path@[l],
        decreases leaf.path@.len() - k,
    {
        if leaf.path[k] >= n || (k > 0 && leaf.path[k - 1] >= leaf.path[k]) {
            assert(!(leaf.path@[k as int] < n) || (k > 0 && !(leaf.path@[k - 1]
                < leaf.path@[k as int])));
            return false;
        }
        proof {
            let front = leaf.path@.take(k + 1);
            assert forall|j: int| 0 <= j < front.len() implies (#[trigger] front[j]) < n by {
                if j < k {
                    assert(leaf.path@.take(k as int)[j] < n);
                }
            }
            assert forall|j: int, l: int| 0 <= j < l < k + 1 implies #[trigger] leaf.path@[j]
                < #[trigger] leaf.path@[l] by {
                if l == k && j < k - 1 {
                    assert(leaf.path@[j] < leaf.path@[k - 1]);
                }
            }
        }
        k += 1;
    }
    assert(leaf.path@.take(k as int) =~= leaf.path@);
    let mut m: usize = 0;
    while m < leaf.legal.len()
        invariant
            0 <= m <= leaf.legal@.len(),
            forall|j: int| 0 <= j < m ==> 0 <= (#[trigger] leaf.legal@[j]).1 < POLICY_SIZE,
        decreases leaf.legal@.len() - m,
    {
        let (_, index) = leaf.legal[m];
        if index < 0 || index as usize >= POLICY_SIZE {
            assert(!(0 <= leaf.legal@[m as int].1 < POLICY_SIZE));
            return false;
        }
        m += 1;
    }
    match leaf.eval_row {
        Some(r) => leaf.terminal.is_none() && r < rows && leaf.legal.len() > 0,
        None => leaf.terminal.is_some(),
    }
}

/// A simulation of game `before` is completed. Unless its position is finished, the leaf
/// gets its moves from its row of the policies. The value, of the finished position or
/// from the network, is backed up.
pub open spec fn settles<A: Arithmetic>(
    before: Game,
    after: Game,
    leaf: Leaf,
    logits: Seq<Real32>,
    values: Seq<Real>,
    arith: A,
) -> bool {
    let a = nodes(before.arena@);
    let b = nodes(after.arena@);
    &&& same_but_tree(before, after)
    &&& match leaf.eval_row {
        None => backs_up(a, b, leaf.path@, leaf.terminal->0, arith),
        Some(r) => exists|mid: Seq<NodeView>| #[trigger]
            expands(
                a,
                mid,
                leaf.path@.last() as int,
                leaf.legal@,
                policy_row(logits, r as int),
                arith,
            ) && backs_up(mid, b, leaf.path@, values[r as int], arith),
    }
}

/// Every leaf is settled in its game, and the games without a leaf are as they were.
pub open spec fn scatters<A: Arithmetic>(
    before: Seq<Game>,
    after: Seq<Game>,
    leaves: Seq<Leaf>,
    logits: Seq<Real32>,
    values: Seq<Real>,
    arith: A,
) -> bool {
    &&& after.len() == before.len()
    &&& forall|k: int|
        0 <= k < leaves.len() ==> settles(
            before[(#[trigger] leaves[k]).game as int],
            after[leaves[k].game as int],
            leaves[k],
            logits,
            values,
            arith,
        )
    &&& forall|i: int|
        0 <= i < before.len() && (forall|k: int|
            0 <= k < leaves.len() ==> (#[trigger] leaves[k]).game != i) ==> #[trigger] after[i]
            == before[i]
}

/// Settles one leaf in its game.
fn settle<A: Arithmetic>(
    g: &mut Game,
    leaf: &Leaf,
    logits: &Vec<Real32>,
    values: &Vec<Real>,
    arith: &A,
)
    requires
        game_wf(*old(g)),
        softmax_fits(*arith),
        leaf.path@.len() > 0,
        path_within(leaf.path@, old(g).arena@.len()),
        ascending(leaf.path@),
        moves_ok(leaf.legal@),
        match leaf.eval_row {
            Some(r) => {
                &&& leaf.legal@.len() > 0
                &&& (r + 1) * POLICY_SIZE <= logits@.len()
                &&& r < values@.len()
                &&& old(g).arena@.len() + leaf.legal@.len() <= u32::MAX
            },
            None => leaf.terminal is Some,
        },
        visits_within(nodes(old(g).arena@), u32::MAX - 1),
    ensures
        settles(*old(g), *final(g), *leaf, logits@, values@, *arith),
        keeps_shape(*old(g), *final(g)),
        visits_grow(*old(g), *final(g), 1),
{
    let ghost a = nodes(g.arena@);
    match leaf.eval_row {
        Some(r) => {
            assert(logits@.len() == logits.len());
            let from: usize = r * POLICY_SIZE;
            let row = vstd::slice::slice_subrange(logits.as_slice(), from, from + POLICY_SIZE);
            assert(row@ =~= policy_row(logits@, r as int));
            let node: usize = leaf.path[leaf.path.len() - 1];
            let ghost first = g.arena@[0]@;
            expand_node(&mut g.arena, node, &leaf.legal, row, arith);
            let ghost mid = nodes(g.arena@);
            assert(expands(
                a,
                mid,
                leaf.path@.last() as int,
                leaf.legal@,
                policy_row(logits@, r as int),
                *arith,
            ));
            assert(first.expanded ==> g.arena@[0].expanded) by {
                if node != 0 {
                    assert(g.arena@[0]@ == first);
                }
            }
            back_up_once(&mut g.arena, &leaf.path, values[r], arith);
        },
        None => {
            if let Some(value) = leaf.terminal {
                back_up_once(&mut g.arena, &leaf.path, value, arith);
            }
        },
    }
}

/// Completes one simulation of every game: each leaf gets its moves and its value from its
/// row of the answer, and its value is backed up.
pub fn scatter_leaves<A: Arithmetic>(
    games: &mut Vec<Game>,
    leaves: &Vec<Leaf>,
    logits: &Vec<Real32>,
    values: &Vec<Real>,
    arith: &A,
)
    requires
        games_wf(old(games)@),
        softmax_fits(*arith),
        leaves_wf(old(games)@, leaves@),
        leaves_fit(old(games)@, leaves@),
        rows_in(leaves@) * POLICY_SIZE <= logits@.len(),
        rows_in(leaves@) <= values@.len(),
        all_visits_within(old(games)@, u32::MAX - 1),
    ensures
        scatters(old(games)@, final(games)@, leaves@, logits@, values@, *arith),
        shapes_kept(old(games)@, final(games)@),
        all_grow(old(games)@, final(games)@, 1),
{
    let ghost start = games@;
    let ghost rows: int = rows_in(leaves@) as int;
    let mut k: usize = 0;
    while k < leaves.len()
        invariant
            0 <= k <= leaves@.len(),
            games_wf(start),
            softmax_fits(*arith),
            leaves_wf(start, leaves@),
            leaves_fit(start, leaves@),
            rows == rows_in(leaves@),
            rows * POLICY_SIZE <= logits@.len(),
            rows <= values@.len(),
            all_visits_within(start, u32::MAX - 1),
            games@.len() == start.len(),
            forall|j: int|
                0 <= j < k ==> settles(
                    start[(#[trigger] leaves@[j]).game as int],
                    games@[leaves@[j].game as int],
                    leaves@[j],
                    logits@,
                    values@,
                    *arith,
                ),
            forall|i: int|
                0 <= i < start.len() && (forall|j: int|
                    0 <= j < k ==> (#[trigger] leaves@[j]).game != i) ==> #[trigger] games@[i]
                    == start[i],
            shapes_kept(start, games@),
            all_grow(start, games@, 1),
        decreases leaves@.len() - k,
    {
        let i: usize = leaves[k].game;
        let ghost before = games@;
        proof {
            assert(leaf_wf(start, leaves@[k as int], rows));
            assert(leaf_fits(start, leaves@[k as int]));
            assert forall|j: int| 0 <= j < k implies (#[trigger] leaves@[j]).game != i by {
                assert(leaves@[j].game < leaves@[k as int].game);
            }
            assert(before[i as int] == start[i as int]);
            assert(game_wf(start[i as int]));
            assert(visits_within(nodes(start[i as int].arena@), u32::MAX - 1));
            if let Some(r) = leaves@[k as int].eval_row {
                assert((r + 1) * POLICY_SIZE <= rows * POLICY_SIZE) by (nonlinear_arith)
                    requires
                        r + 1 <= rows,
                ;
            }
        }
        settle(&mut games[i], &leaves[k], logits, values, arith);
        proof {
            assert forall|j: int| 0 <= j < k + 1 implies settles(
                start[(#[trigger] leaves@[j]).game as int],
                games@[leaves@[j].game as int],
                leaves@[j],
                logits@,
                values@,
                *arith,
            ) by {
                if j < k {
                    assert(leaves@[j].game < leaves@[k as int].game);
                    assert(games@[leaves@[j].game as int] == before[leaves@[j].game as int]);
                }
            }
            assert forall|l: int|
                0 <= l < start.len() && (forall|j: int|
                    0 <= j < k + 1 ==> (#[trigger] leaves@[j]).game
                        != l) implies #[trigger] games@[l] == start[l] by {
                assert(leaves@[k as int].game != l);
                assert(games@[l] == before[l]);
            }
            assert forall|l: int| 0 <= l < start.len() implies keeps_shape(
                start[l],
                #[trigger] games@[l],
            ) by {
                assert(keeps_shape(start[l], before[l]));
            }
            assert forall|l: int| 0 <= l < start.len() implies visits_grow(
                start[l],
                #[trigger] games@[l],
                1,
            ) by {
                assert(visits_grow(start[l], before[l], 1));
            }
        }
        k += 1;
    }
}

// --- a whole search ----------------------------------------------------------

/// The games that still need the moves at their roots get them from one evaluation.
pub open spec fn root_stage<A: Arithmetic, E: Evaluator>(
    before: Seq<Game>,
    after: Seq<Game>,
    arith: A,
    net: E,
) -> bool {
    let need = bare_roots(before, before.len());
    if need.len() == 0 {
        after == before
    } else {
        exists|enc: Vec<Real32>, out: (Vec<Real32>, Vec<Real>)| #[trigger]
            call_ensures(E::eval, (&net, &enc, need.len() as usize), out) && is_root_batch(
                before,
                need,
                enc@,
            ) && expands_roots(before, after, need, out.0@, arith)
    }
}

/// The games get their noise at the roots when noise is wanted.
pub open spec fn noise_stage<A: Arithmetic, T: Table>(
    before: Seq<Game>,
    after: Seq<Game>,
    seats: Seq<u64>,
    wanted: bool,
    arith: A,
    table: T,
) -> bool {
    if wanted {
        noises_roots(before, after, seats, arith, table)
    } else {
        after == before
    }
}

/// One simulation of every game, from well-formed trees, with one evaluation unless every leaf
/// is finished.
pub open spec fn sim_stage<A: Arithmetic, T: Table, E: Evaluator>(
    before: Seq<Game>,
    after: Seq<Game>,
    seats: Seq<u64>,
    arith: A,
    table: T,
    net: E,
) -> bool {
    &&& games_wf(before)
    &&& exists|leaves: Seq<Leaf>, enc: Vec<Real32>, rows: usize, out: (Vec<Real32>, Vec<Real>)|
        {
            &&& #[trigger] gathers(before, seats, leaves, enc@, rows as int, arith, table)
            &&& rows > 0 ==> call_ensures(E::eval, (&net, &enc, rows), out)
            &&& #[trigger] scatters(before, after, leaves, out.0@, out.1@, arith)
        }
}

/// The `k`-th simulation leads from one state to the next.
pub open spec fn sim_at<A: Arithmetic, T: Table, E: Evaluator>(
    states: Seq<Seq<Game>>,
    k: int,
    seats: Seq<u64>,
    arith: A,
    table: T,
    net: E,
) -> bool {
    sim_stage(states[k], states[k + 1], seats, arith, table, net)
}

/// The moves at the roots are generated, the noise is mixed in, and `n` simulations follow:
/// that leads from `before` to `after`.
pub open spec fn searches<A: Arithmetic, T: Table, E: Evaluator>(
    before: Seq<Game>,
    after: Seq<Game>,
    seats: Seq<u64>,
    n: int,
    noise: bool,
    arith: A,
    table: T,
    net: E,
) -> bool {
    exists|mid: Seq<Game>, states: Seq<Seq<Game>>|
        {
            &&& #[trigger] root_stage(before, mid, arith, net)
            &&& #[trigger] noise_stage(mid, states[0], seats, noise, arith, table)
            &&& states.len() == n + 1
            &&& states[n] == after
            &&& forall|k: int|
                0 <= k < n ==> #[trigger] sim_at(states, k, seats, arith, table, net)
        }
}

/// A leaf of game `i` was reached whose moves do not fit into the tree.
pub open spec fn overflows<A: Arithmetic, T: Table>(
    games: Seq<Game>,
    seats: Seq<u64>,
    i: int,
    arith: A,
    table: T,
) -> bool {
    exists|leaf: Leaf, at: Position| #[trigger]
        reached(games[i], leaf, at, arith, table, seats[i]) && games[i].arena@.len()
            + at.legal@.len() > u32::MAX
}

/// What holds after a search that had to stop.
pub open spec fn halts<A: Arithmetic, T: Table, E: Evaluator>(
    before: Seq<Game>,
    after: Seq<Game>,
    seats: Seq<u64>,
    sims: int,
    noise: bool,
    halt: Halt,
    arith: A,
    table: T,
    net: E,
) -> bool {
    match halt {
        Halt::Stuck(i) => {
            &&& i < after.len()
            &&& !after[i as int].done
            &&& blocked(after[i as int].arena@, arith)
            &&& exists|n: int|
                0 <= n < sims && #[trigger] searches(
                    before,
                    after,
                    seats,
                    n,
                    noise,
                    arith,
                    table,
                    net,
                )
        },
        Halt::Full(i) => {
            &&& i < after.len()
            &&& !after[i as int].done
            &&& {
                ||| after == before && !root_fits(before, i as int)
                ||| overflows(after, seats, i as int, arith, table) && exists|n: int|
                    0 <= n < sims && #[trigger] searches(
                        before,
                        after,
                        seats,
                        n,
                        noise,
                        arith,
                        table,
                        net,
                    )
            }
        },
    }
}

/// Searches every game that is being played: generates the moves at the roots, mixes noise
/// in when it is wanted, and runs `sims` simulations, each with one evaluation for all games.
pub fn run_cycle<A: Arithmetic, T: Table, E: Evaluator>(
    games: &mut Vec<Game>,
    seats: &Vec<u64>,
    sims: usize,
    add_root_noise: bool,
    arith: &A,
    table: &T,
    net: &E,
) -> (done: Result<(), Halt>)
    requires
        games_wf(old(games)@),
        seats@.len() == old(games)@.len(),
        softmax_fits(*arith),
        table_wf(*table),
        answers_fit(*net),
        sims <= u32::MAX,
        all_visits_within(old(games)@, u32::MAX - sims),
    ensures
        match done {
            Ok(()) => {
                &&& searches(
                    old(games)@,
                    final(games)@,
                    seats@,
                    sims as int,
                    add_root_noise,
                    *arith,
                    *table,
                    *net,
                )
                &&& forall|i: int|
                    0 <= i < final(games)@.len() && !(
                    #[trigger] final(games)@[i]).done ==> final(games)@[i].arena@[0].expanded
            },
            Err(halt) => halts(
                old(games)@,
                final(games)@,
                seats@,
                sims as int,
                add_root_noise,
                halt,
                *arith,
                *table,
                *net,
            ),
        },
        games_wf(final(games)@),
        final(games)@.len() == old(games)@.len(),
        forall|i: int|
            0 <= i < old(games)@.len() ==> same_but_tree(old(games)@[i], #[trigger] final(games)@[i]),
        games_live(old(games)@) ==> games_live(final(games)@),
        all_grow(old(games)@, final(games)@, sims as int),
        done_untouched(old(games)@, final(games)@),
{
    let ghost start = games@;
    let need = roots_to_expand(games);
    proof {
        assert(games@.len() == games.len());
        lemma_bare_roots(start, start.len());
    }
    if need.len() > 0 {
        if let Some(i) = find_full_root(games, &need) {
            proof {
                let k = choose|k: int| 0 <= k < need@.len() && need@[k] == i;
                assert(need@[k] == i);
                lemma_no_growth(games@);
                lemma_grow_chain(start, games@, games@, 0, 0, sims as int);
            }
            return Err(Halt::Full(i));
        }
        let enc = encode_roots(games, &need);
        let out = net.eval(&enc, need.len());
        assert(call_ensures(E::eval, (net, &enc, need@.len() as usize), out));
        expand_roots(games, &need, &out.0, arith);
    }
    let ghost mid = games@;
    proof {
        if need@.len() == 0 {
            lemma_no_growth(games@);
        }
        assert forall|i: int| 0 <= i < start.len() && start[i].done implies #[trigger] mid[i]
            == start[i] by {
            if need@.len() > 0 && need@.contains(i as usize) {
                let k = choose|k: int| 0 <= k < need@.len() && need@[k] == i as usize;
                assert(!start[need@[k] as int].done);
            }
        }
        assert(root_stage(start, mid, *arith, *net));
        assert forall|i: int| 0 <= i < mid.len() && !(
        #[trigger] mid[i]).done implies mid[i].arena@[0].expanded && (games_live(start)
            ==> bushy(nodes(mid[i].arena@))) by {
            assert(same_but_tree(start[i], mid[i]));
            assert(game_wf(start[i]));
            if !start[i].arena@[0].expanded {
                assert(need@.contains(i as usize));
                let k = choose|k: int| 0 <= k < need@.len() && need@[k] == i as usize;
                assert(mid[need@[k] as int].arena@[0].expanded);
            }
            if games_live(start) {
                assert(is_live(start[i]));
            }
        }
    }
    if add_root_noise {
        noise_roots(games, seats, arith, table);
    }
    let ghost mut states: Seq<Seq<Game>> = seq![games@];
    proof {
        assert(noise_stage(mid, states[0], seats@, add_root_noise, *arith, *table));
        assert forall|i: int| 0 <= i < start.len() implies {
            &&& same_but_tree(start[i], #[trigger] games@[i])
            &&& game_wf(games@[i])
            &&& !start[i].done ==> games@[i].arena@[0].expanded && (games_live(start) ==> bushy(
                nodes(games@[i].arena@),
            ))
        } by {
            assert(same_but_tree(start[i], mid[i]));
            if add_root_noise {
                assert(keeps_shape(mid[i], games@[i]));
            }
        }
        if add_root_noise {
            lemma_grow_chain(start, mid, games@, 0, 0, 0);
        }
        assert forall|i: int| 0 <= i < start.len() && start[i].done implies #[trigger] games@[i]
            == start[i] by {
            assert(mid[i] == start[i]);
        }
    }
    let mut s: usize = 0;
    while s < sims
        invariant
            0 <= s <= sims,
            sims <= u32::MAX,
            start == old(games)@,
            seats@.len() == start.len(),
            games@.len() == start.len(),
            softmax_fits(*arith),
            table_wf(*table),
            answers_fit(*net),
            all_visits_within(start, u32::MAX - sims),
            root_stage(start, mid, *arith, *net),
            noise_stage(mid, states[0], seats@, add_root_noise, *arith, *table),
            states.len() == s + 1,
            states[s as int] == games@,
            forall|k: int|
                0 <= k < s ==> #[trigger] sim_at(states, k, seats@, *arith, *table, *net),
            forall|i: int|
                0 <= i < start.len() ==> {
                    &&& same_but_tree(start[i], #[trigger] games@[i])
                    &&& game_wf(games@[i])
                    &&& !start[i].done ==> games@[i].arena@[0].expanded && (games_live(start)
                        ==> bushy(nodes(games@[i].arena@)))
                },
            all_grow(start, games@, s as int),
            done_untouched(start, games@),
        decreases sims - s,
    {
        let ghost before = games@;
        proof {
            assert(searches(
                start,
                before,
                seats@,
                s as int,
                add_root_noise,
                *arith,
                *table,
                *net,
            ));
            lemma_no_growth(games@);
            lemma_grow_chain(start, games@, games@, s as int, 0, sims as int);
            lemma_live(start, games@);
            lemma_all_grow(start, games@, s as int, u32::MAX - sims);
            lemma_wider(games@, u32::MAX - sims + s, u32::MAX - 1);
        }
        let (leaves, enc, rows) = match gather_leaves(games, seats, arith, table) {
            Ok(gathered) => gathered,
            Err(halt) => {
                return Err(halt);
            },
        };
        proof {
            assert forall|k: int| 0 <= k < leaves@.len() implies (#[trigger] leaves@[k]).game
                < games@.len() by {
                assert(leaf_wf(games@, leaves@[k], rows_in(leaves@) as int));
            }
        }
        if let Some(i) = find_full(games, &leaves) {
            proof {
                let k = choose|k: int|
                    0 <= k < leaves@.len() && !#[trigger] leaf_fits(games@, leaves@[k])
                        && leaves@[k].game == i;
                assert(leaf_wf(games@, leaves@[k], rows_in(leaves@) as int));
                assert(leaf_gathered(games@, seats@, leaves@, enc@, k, *arith, *table));
                let at = choose|at: Position| #[trigger]
                    reached(games@[i as int], leaves@[k], at, *arith, *table, seats@[i as int]);
                assert(overflows(games@, seats@, i as int, *arith, *table));
            }
            return Err(Halt::Full(i));
        }
        let out: (Vec<Real32>, Vec<Real>) = if rows > 0 {
            net.eval(&enc, rows)
        } else {
            (Vec::new(), Vec::new())
        };
        scatter_leaves(games, &leaves, &out.0, &out.1, arith);
        proof {
            assert(gathers(before, seats@, leaves@, enc@, rows as int, *arith, *table));
            assert(scatters(before, games@, leaves@, out.0@, out.1@, *arith));
            assert(sim_stage(before, games@, seats@, *arith, *table, *net));
            let earlier = states;
            states = states.push(games@);
            assert forall|k: int| 0 <= k < s + 1 implies #[trigger] sim_at(
                states,
                k,
                seats@,
                *arith,
                *table,
                *net,
            ) by {
                if k < s {
                    assert(sim_at(earlier, k, seats@, *arith, *table, *net));
                    assert(states[k] == earlier[k] && states[k + 1] == earlier[k + 1]);
                }
            }
            assert forall|i: int| 0 <= i < start.len() implies {
                &&& same_but_tree(start[i], #[trigger] games@[i])
                &&& game_wf(games@[i])
                &&& !start[i].done ==> games@[i].arena@[0].expanded && (games_live(start)
                    ==> bushy(nodes(games@[i].arena@)))
            } by {
                assert(same_but_tree(start[i], before[i]));
                assert(keeps_shape(before[i], games@[i]));
            }
            lemma_grow_chain(start, before, games@, s as int, 1, s + 1);
            assert forall|i: int| 0 <= i < start.len() && start[i].done implies #[trigger] games@[i]
                == start[i] by {
                assert(before[i] == start[i]);
                assert forall|k: int| 0 <= k < leaves@.len() implies (#[trigger] leaves@[k]).game
                    != i by {
                    assert(leaf_wf(before, leaves@[k], rows_in(leaves@) as int));
                }
            }
        }
        s += 1;
    }
    proof {
        assert(searches(
            start,
            games@,
            seats@,
            sims as int,
            add_root_noise,
            *arith,
            *table,
            *net,
        ));
        lemma_live(start, games@);
    }
    Ok(())
}

/// Bounds on the visit counts grow with the counts.
pub proof fn lemma_all_grow(before: Seq<Game>, after: Seq<Game>, d: int, bound: int)
    requires
        all_grow(before, after, d),
        all_visits_within(before, bound),
        bound >= 0,
    ensures
        all_visits_within(after, bound + d),
{
    assert forall|i: int| 0 <= i < after.len() implies visits_within(
        #[trigger] nodes(after[i].arena@),
        bound + d,
    ) by {
        assert(visits_grow(before[i], after[i], d));
        assert(visits_within(nodes(before[i].arena@), bound));
    }
}

pub proof fn lemma_no_growth(games: Seq<Game>)
    ensures
        all_grow(games, games, 0),
{
}

/// Growth adds up.
pub proof fn lemma_grow_chain(
    a: Seq<Game>,
    b: Seq<Game>,
    c: Seq<Game>,
    first: int,
    second: int,
    total: int,
)
    requires
        all_grow(a, b, first),
        all_grow(b, c, second),
        0 <= first,
        first + second <= total,
    ensures
        all_grow(a, c, total),
{
    assert forall|i: int| 0 <= i < a.len() implies visits_grow(a[i], #[trigger] c[i], total) by {
        assert(visits_grow(a[i], b[i], first));
        assert(visits_grow(b[i], c[i], second));
        assert forall|bound: int|
            bound >= 0 && #[trigger] visits_within(nodes(a[i].arena@), bound) implies visits_within(
            nodes(c[i].arena@),
            bound + total,
        ) by {
            assert(visits_within(nodes(b[i].arena@), bound + first));
            let cs = nodes(c[i].arena@);
            assert(visits_within(cs, bound + first + second));
            assert forall|k: int| 0 <= k < cs.len() implies (#[trigger] cs[k]).visit_count <= bound
                + total by {
                assert(cs[k].visit_count <= bound + first + second);
            }
        }
    }
}

pub proof fn lemma_wider(games: Seq<Game>, bound: int, wider: int)
    requires
        all_visits_within(games, bound),
        bound <= wider,
    ensures
        all_visits_within(games, wider),
{
    assert forall|i: int| 0 <= i < games.len() implies visits_within(
        #[trigger] nodes(games[i].arena@),
        wider,
    ) by {
        assert(visits_within(nodes(games[i].arena@), bound));
    }
}

proof fn lemma_live(before: Seq<Game>, after: Seq<Game>)
    requires
        after.len() == before.len(),
        forall|i: int|
            0 <= i < before.len() ==> same_but_tree(before[i], #[trigger] after[i]) && game_wf(
                after[i],
            ) && (!before[i].done && games_live(before) ==> bushy(nodes(after[i].arena@))),
    ensures
        games_wf(after),
        games_live(before) ==> games_live(after),
{
    if games_live(before) {
        assert forall|i: int| 0 <= i < after.len() && !(#[trigger] after[i]).done implies is_live(
            after[i],
        ) && bushy(nodes(after[i].arena@)) by {
            assert(same_but_tree(before[i], after[i]));
            assert(is_live(before[i]));
        }
    }
}

/// Searches every game without noise, as in a match.
pub fn run_simulations<A: Arithmetic, T: Table, E: Evaluator>(
    holders: &mut Vec<Game>,
    seats: &Vec<u64>,
    sims: usize,
    arith: &A,
    table: &T,
    net: &E,
) -> (done: Result<(), Halt>)
    requires
        games_wf(old(holders)@),
        seats@.len() == old(holders)@.len(),
        softmax_fits(*arith),
        table_wf(*table),
        answers_fit(*net),
        sims <= u32::MAX,
        all_visits_within(old(holders)@, u32::MAX - sims),
    ensures
        match done {
            Ok(()) => {
                &&& searches(
                    old(holders)@,
                    final(holders)@,
                    seats@,
                    sims as int,
                    false,
                    *arith,
                    *table,
                    *net,
                )
                &&& forall|i: int|
                    0 <= i < final(holders)@.len() && !(
                    #[trigger] final(holders)@[i]).done ==> final(holders)@[i].arena@[0].expanded
            },
            Err(halt) => halts(
                old(holders)@,
                final(holders)@,
                seats@,
                sims as int,
                false,
                halt,
                *arith,
                *table,
                *net,
            ),
        },
        games_wf(final(holders)@),
        final(holders)@.len() == old(holders)@.len(),
        forall|i: int|
            0 <= i < old(holders)@.len() ==> same_but_tree(
                old(holders)@[i],
                #[trigger] final(holders)@[i],
            ),
        games_live(old(holders)@) ==> games_live(final(holders)@),
{
    run_cycle(holders, seats, sims, false, arith, table, net)
}

// --- games do not mix --------------------------------------------------------

/// What a network says of one position: its policy and its value.
pub type Judge = spec_fn(Seq<Real32>) -> (Seq<Real32>, Real);

/// The network judges each position of a batch by itself.
pub open spec fn judges_rows<E: Evaluator>(net: E, judge: Judge) -> bool {
    forall|enc: &Vec<Real32>, m: usize, out: (Vec<Real32>, Vec<Real>), r: int|
        #![trigger call_ensures(E::eval, (&net, enc, m), out), row_of(enc@, r)]
        call_ensures(E::eval, (&net, enc, m), out) && 0 <= r < m ==> policy_row(out.0@, r) == judge(
            row_of(enc@, r),
        ).0 && out.1@[r] == judge(row_of(enc@, r)).1
}

/// The moves at the root of a game, as they come about in a search of this game alone.
pub open spec fn roots_alone<A: Arithmetic>(before: Game, after: Game, judge: Judge, arith: A) -> bool {
    if before.done || before.arena@[0].expanded {
        after == before
    } else {
        same_but_tree(before, after) && expands(
            nodes(before.arena@),
            nodes(after.arena@),
            0,
            before.position.legal@,
            judge(before.position.enc@).0,
            arith,
        )
    }
}

/// One simulation of a game, as it comes about in a search of this game alone.
pub open spec fn sims_alone<A: Arithmetic, T: Table>(
    before: Game,
    after: Game,
    seat: u64,
    judge: Judge,
    arith: A,
    table: T,
) -> bool {
    if before.done {
        after == before
    } else {
        game_wf(before) && exists|leaf: Leaf, at: Position| #[trigger]
            reached(before, leaf, at, arith, table, seat) && same_but_tree(before, after)
                && match at.terminal {
                Some(value) => backs_up(
                    nodes(before.arena@),
                    nodes(after.arena@),
                    leaf.path@,
                    value,
                    arith,
                ),
                None => exists|mid: Seq<NodeView>| #[trigger]
                    expands(
                        nodes(before.arena@),
                        mid,
                        leaf.path@.last() as int,
                        at.legal@,
                        judge(at.enc@).0,
                        arith,
                    ) && backs_up(mid, nodes(after.arena@), leaf.path@, judge(at.enc@).1, arith),
            }
    }
}

/// The `k`-th simulation of a search of one game alone.
pub open spec fn sims_alone_at<A: Arithmetic, T: Table>(
    states: Seq<Game>,
    k: int,
    seat: u64,
    judge: Judge,
    arith: A,
    table: T,
) -> bool {
    sims_alone(states[k], states[k + 1], seat, judge, arith, table)
}

/// A search of one game alone with `n` simulations leads from `before` to `after`.
pub open spec fn searches_alone<A: Arithmetic, T: Table>(
    before: Game,
    after: Game,
    seat: u64,
    n: int,
    noise: bool,
    judge: Judge,
    arith: A,
    table: T,
) -> bool {
    exists|mid: Game, states: Seq<Game>|
        {
            &&& #[trigger] roots_alone(before, mid, judge, arith)
            &&& states.len() == n + 1
            &&& if noise {
                gets_root_noise(mid, #[trigger] states[0], arith, table, seat)
            } else {
                states[0] == mid
            }
            &&& states[n] == after
            &&& forall|k: int|
                0 <= k < n ==> #[trigger] sims_alone_at(states, k, seat, judge, arith, table)
        }
}

pub proof fn lemma_in_play(games: Seq<Game>, n: nat)
    requires
        n <= games.len() <= usize::MAX,
    ensures
        forall|k: int|
            0 <= k < in_play(games, n).len() ==> {
                let i = #[trigger] in_play(games, n)[k] as int;
                i < n && !games[i].done
            },
        forall|i: int|
            0 <= i < n && !(#[trigger] games[i]).done ==> in_play(games, n).contains(i as usize),
    decreases n,
{
    if n > 0 {
        lemma_in_play(games, (n - 1) as nat);
        let rest = in_play(games, (n - 1) as nat);
        let all = in_play(games, n);
        assert forall|i: int| 0 <= i < n && !(#[trigger] games[i]).done implies all.contains(
            i as usize,
        ) by {
            if i < n - 1 {
                let k = choose|k: int| 0 <= k < rest.len() && rest[k] == i as usize;
                assert(all[k] == i as usize);
            } else {
                assert(all[all.len() - 1] == i as usize);
            }
        }
    }
}

proof fn lemma_root_alone<A: Arithmetic, E: Evaluator>(
    before: Seq<Game>,
    after: Seq<Game>,
    i: int,
    judge: Judge,
    arith: A,
    net: E,
)
    requires
        root_stage(before, after, arith, net),
        judges_rows(net, judge),
        0 <= i < before.len() <= usize::MAX,
    ensures
        after.len() == before.len(),
        roots_alone(before[i], after[i], judge, arith),
{
    let need = bare_roots(before, before.len());
    lemma_bare_roots(before, before.len());
    if need.len() > 0 {
        let (enc, out) = choose|enc: Vec<Real32>, out: (Vec<Real32>, Vec<Real>)| #[trigger]
            call_ensures(E::eval, (&net, &enc, need.len() as usize), out) && is_root_batch(
                before,
                need,
                enc@,
            ) && expands_roots(before, after, need, out.0@, arith);
        if need.contains(i as usize) {
            let k = choose|k: int| 0 <= k < need.len() && need[k] == i as usize;
            assert(gets_root(before[need[k] as int], after[need[k] as int], out.0@, k, arith));
            assert(row_of(enc@, k) == before[need[k] as int].position.enc@);
        }
    }
}

proof fn lemma_sim_alone<A: Arithmetic, T: Table, E: Evaluator>(
    before: Seq<Game>,
    after: Seq<Game>,
    seats: Seq<u64>,
    i: int,
    judge: Judge,
    arith: A,
    table: T,
    net: E,
)
    requires
        sim_stage(before, after, seats, arith, table, net),
        judges_rows(net, judge),
        0 <= i < before.len() <= usize::MAX,
    ensures
        after.len() == before.len(),
        sims_alone(before[i], after[i], seats[i], judge, arith, table),
{
    let (leaves, enc, rows, out) = choose|
        leaves: Seq<Leaf>,
        enc: Vec<Real32>,
        rows: usize,
        out: (Vec<Real32>, Vec<Real>),
    |
        {
            &&& #[trigger] gathers(before, seats, leaves, enc@, rows as int, arith, table)
            &&& rows > 0 ==> call_ensures(E::eval, (&net, &enc, rows), out)
            &&& #[trigger] scatters(before, after, leaves, out.0@, out.1@, arith)
        };
    let playing = in_play(before, before.len());
    lemma_in_play(before, before.len());
    if before[i].done {
        assert forall|k: int| 0 <= k < leaves.len() implies (#[trigger] leaves[k]).game != i by {
            assert(leaves[k].game == playing[k]);
        }
        assert(after[i] == before[i]);
    } else {
        assert(playing.contains(i as usize));
        let k = choose|k: int| 0 <= k < playing.len() && playing[k] == i as usize;
        let leaf = leaves[k];
        assert(leaf.game == i);
        assert(leaf_gathered(before, seats, leaves, enc@, k, arith, table));
        let r = rows_before(leaves, k as nat);
        let at = choose|at: Position| #[trigger]
            reached(before[i], leaf, at, arith, table, seats[i]) && if at.terminal is Some {
                leaf.eval_row is None
            } else {
                leaf.eval_row == Some(r as usize) && row_of(enc@, r as int) == at.enc@
            };
        assert(settles(before[i], after[i], leaf, out.0@, out.1@, arith));
        if at.terminal is None {
            lemma_rows_below(leaves, k as nat, leaves.len());
            assert(r < rows);
            assert(policy_row(out.0@, r as int) == judge(row_of(enc@, r as int)).0);
        }
    }
}

/// What a game becomes in a batch does not depend on the games it shares the batch with, as
/// long as the network judges each position by itself: the search leads to where a search of
/// this game alone can lead.
pub proof fn games_do_not_mix<A: Arithmetic, T: Table, E: Evaluator>(
    before: Seq<Game>,
    after: Seq<Game>,
    seats: Seq<u64>,
    n: int,
    noise: bool,
    i: int,
    judge: Judge,
    arith: A,
    table: T,
    net: E,
)
    requires
        searches(before, after, seats, n, noise, arith, table, net),
        judges_rows(net, judge),
        0 <= n,
        0 <= i < before.len() <= usize::MAX,
    ensures
        searches_alone(before[i], after[i], seats[i], n, noise, judge, arith, table),
{
    let (mid, states) = choose|mid: Seq<Game>, states: Seq<Seq<Game>>|
        {
            &&& #[trigger] root_stage(before, mid, arith, net)
            &&& #[trigger] noise_stage(mid, states[0], seats, noise, arith, table)
            &&& states.len() == n + 1
            &&& states[n] == after
            &&& forall|k: int|
                0 <= k < n ==> #[trigger] sim_at(states, k, seats, arith, table, net)
        };
    lemma_root_alone(before, mid, i, judge, arith, net);
    if noise {
        assert(gets_root_noise(mid[i], states[0][i], arith, table, seats[i]));
    }
    lemma_lengths(states, n, seats, arith, table, net);
    let mine = Seq::new((n + 1) as nat, |k: int| states[k][i]);
    assert forall|k: int| 0 <= k < n implies #[trigger] sims_alone_at(
        mine,
        k,
        seats[i],
        judge,
        arith,
        table,
    ) by {
        assert(sim_at(states, k, seats, arith, table, net));
        lemma_sim_alone(states[k], states[k + 1], seats, i, judge, arith, table, net);
    }
    assert(roots_alone(before[i], mid[i], judge, arith));
    assert(mine[0] == states[0][i]);
}

/// No game is lost in a search, and none joins.
pub proof fn searching_keeps_the_number<A: Arithmetic, T: Table, E: Evaluator>(
    before: Seq<Game>,
    after: Seq<Game>,
    seats: Seq<u64>,
    n: int,
    noise: bool,
    arith: A,
    table: T,
    net: E,
)
    requires
        searches(before, after, seats, n, noise, arith, table, net),
        0 <= n,
    ensures
        after.len() == before.len(),
{
    let (mid, states) = choose|mid: Seq<Game>, states: Seq<Seq<Game>>|
        {
            &&& #[trigger] root_stage(before, mid, arith, net)
            &&& #[trigger] noise_stage(mid, states[0], seats, noise, arith, table)
            &&& states.len() == n + 1
            &&& states[n] == after
            &&& forall|k: int|
                0 <= k < n ==> #[trigger] sim_at(states, k, seats, arith, table, net)
        };
    lemma_lengths(states, n, seats, arith, table, net);
    assert(states[n].len() == states[0].len());
}

proof fn lemma_lengths<A: Arithmetic, T: Table, E: Evaluator>(
    states: Seq<Seq<Game>>,
    n: int,
    seats: Seq<u64>,
    arith: A,
    table: T,
    net: E,
)
    requires
        0 <= n,
        states.len() == n + 1,
        forall|k: int| 0 <= k < n ==> #[trigger] sim_at(states, k, seats, arith, table, net),
    ensures
        forall|k: int| 0 <= k <= n ==> (#[trigger] states[k]).len() == states[0].len(),
    decreases n,
{
    if n > 0 {
        let front = states.drop_last();
        assert forall|k: int| 0 <= k < n - 1 implies #[trigger] sim_at(
            front,
            k,
            seats,
            arith,
            table,
            net,
        ) by {
            assert(sim_at(states, k, seats, arith, table, net));
            assert(front[k + 1] == states[k + 1]);
        }
        lemma_lengths(front, n - 1, seats, arith, table, net);
        assert(sim_at(states, n - 1, seats, arith, table, net));
        assert forall|k: int| 0 <= k <= n implies (#[trigger] states[k]).len()
            == states[0].len() by {
            assert(front[n - 1] == states[n - 1]);
            if k < n {
                assert(front[k] == states[k]);
            }
        }
    }
}

/// What a batch does to a game that is being played. A walk from the root leads to a leaf, and
/// the table tells the position there, at the seat and the line of the game. The value of a final
/// position is backed up along the walk. Any other position has a row of the batch to itself: the
/// leaf gets its moves from that row of the policies that come back, and the value of that row is
/// backed up.
pub proof fn leaves_have_their_row<A: Arithmetic, T: Table>(
    before: Seq<Game>,
    after: Seq<Game>,
    seats: Seq<u64>,
    leaves: Seq<Leaf>,
    enc: Seq<Real32>,
    rows: int,
    logits: Seq<Real32>,
    values: Seq<Real>,
    i: int,
    arith: A,
    table: T,
) -> (made: (Vec<usize>, Vec<u16>, Position, int, Seq<NodeView>))
    requires
        gathers(before, seats, leaves, enc, rows, arith, table),
        scatters(before, after, leaves, logits, values, arith),
        0 <= i < before.len() <= usize::MAX,
        rows <= usize::MAX,
        !before[i].done,
    ensures
        ({
            let (path, handles, at, r, mid) = made;
            let a = nodes(before[i].arena@);
            let b = nodes(after[i].arena@);
            &&& walks(before[i].arena@, arith, path@, handles@)
            &&& call_ensures(T::look, (&table, seats[i], &before[i].line, &handles), at)
            &&& after[i].line == before[i].line
            &&& after[i].history == before[i].history
            &&& after[i].done == before[i].done
            &&& at.terminal matches Some(value) ==> backs_up(a, b, path@, value, arith)
            &&& at.terminal is None ==> {
                &&& 0 <= r < rows
                &&& enc.len() == rows * ENC_LEN
                &&& row_of(enc, r) == at.enc@
                &&& expands(a, mid, path@.last() as int, at.legal@, policy_row(logits, r), arith)
                &&& backs_up(mid, b, path@, values[r], arith)
            }
        }),
{
    let playing = in_play(before, before.len());
    lemma_in_play(before, before.len());
    assert(playing.contains(i as usize));
    let k = choose|k: int| 0 <= k < playing.len() && playing[k] == i as usize;
    let leaf = leaves[k];
    assert(leaf.game == i);
    assert(leaf_gathered(before, seats, leaves, enc, k, arith, table));
    let r = rows_before(leaves, k as nat);
    let at = choose|at: Position| #[trigger]
        reached(before[i], leaf, at, arith, table, seats[i]) && if at.terminal is Some {
            leaf.eval_row is None
        } else {
            leaf.eval_row == Some(r as usize) && row_of(enc, r as int) == at.enc@
        };
    let handles = choose|handles: Vec<u16>|
        walks(before[i].arena@, arith, leaf.path@, handles@) && #[trigger] call_ensures(
            T::look,
            (&table, seats[i], &before[i].line, &handles),
            at,
        );
    assert(settles(before[i], after[i], leaf, logits, values, arith));
    let a = nodes(before[i].arena@);
    let b = nodes(after[i].arena@);
    let mid = choose|mid: Seq<NodeView>| #[trigger]
        expands(
            a,
            mid,
            leaf.path@.last() as int,
            leaf.legal@,
            policy_row(logits, leaf.eval_row->0 as int),
            arith,
        ) && backs_up(mid, b, leaf.path@, values[leaf.eval_row->0 as int], arith);
    if at.terminal is None {
        lemma_rows_below(leaves, k as nat, leaves.len());
        assert(r < rows);
    }
    (leaf.path, handles, at, r as int, mid)
}

/// What a simulation in step does to a game that is being played: its leaf is settled with the
/// row of the answer that belongs to the leaf's row of the batch, and the network was asked about
/// that batch.
pub proof fn simulations_in_step_ask_once<A: Arithmetic, T: Table, E: Evaluator>(
    before: Seq<Game>,
    after: Seq<Game>,
    seats: Seq<u64>,
    i: int,
    arith: A,
    table: T,
    net: E,
) -> (made: (
    (Vec<usize>, Vec<u16>, Position),
    (Vec<Real32>, usize, (Vec<Real32>, Vec<Real>)),
    (int, Seq<NodeView>),
))
    requires
        sim_stage(before, after, seats, arith, table, net),
        0 <= i < before.len() <= usize::MAX,
        !before[i].done,
    ensures
        ({
            let ((path, handles, at), (enc, rows, out), (r, mid)) = made;
            let a = nodes(before[i].arena@);
            let b = nodes(after[i].arena@);
            &&& walks(before[i].arena@, arith, path@, handles@)
            &&& call_ensures(T::look, (&table, seats[i], &before[i].line, &handles), at)
            &&& after[i].line == before[i].line
            &&& after[i].history == before[i].history
            &&& after[i].done == before[i].done
            &&& at.terminal matches Some(value) ==> backs_up(a, b, path@, value, arith)
            &&& at.terminal is None ==> {
                &&& call_ensures(E::eval, (&net, &enc, rows), out)
                &&& 0 <= r < rows
                &&& enc@.len() == rows * ENC_LEN
                &&& row_of(enc@, r) == at.enc@
                &&& expands(a, mid, path@.last() as int, at.legal@, policy_row(out.0@, r), arith)
                &&& backs_up(mid, b, path@, out.1@[r], arith)
            }
        }),
{
    let (leaves, enc, rows, out) = choose|
        leaves: Seq<Leaf>,
        enc: Vec<Real32>,
        rows: usize,
        out: (Vec<Real32>, Vec<Real>),
    |
        {
            &&& #[trigger] gathers(before, seats, leaves, enc@, rows as int, arith, table)
            &&& rows > 0 ==> call_ensures(E::eval, (&net, &enc, rows), out)
            &&& #[trigger] scatters(before, after, leaves, out.0@, out.1@, arith)
        };
    let (path, handles, at, r, mid) = leaves_have_their_row(
        before,
        after,
        seats,
        leaves,
        enc@,
        rows as int,
        out.0@,
        out.1@,
        i,
        arith,
        table,
    );
    ((path, handles, at), (enc, rows, out), (r, mid))
}

/// The moves at a root that still needs them come from the row of the policies that stands where
/// the position of the game stands in the batch.
pub proof fn roots_in_step_have_their_row<A: Arithmetic, E: Evaluator>(
    before: Seq<Game>,
    after: Seq<Game>,
    i: int,
    arith: A,
    net: E,
) -> (made: (int, Vec<Real32>, usize, (Vec<Real32>, Vec<Real>)))
    requires
        root_stage(before, after, arith, net),
        0 <= i < before.len() <= usize::MAX,
    ensures
        before[i].done || before[i].arena@[0].expanded ==> after[i] == before[i],
        !before[i].done && !before[i].arena@[0].expanded ==> {
            let (r, enc, rows, out) = made;
            &&& call_ensures(E::eval, (&net, &enc, rows), out)
            &&& 0 <= r < rows
            &&& enc@.len() == rows * ENC_LEN
            &&& row_of(enc@, r) == before[i].position.enc@
            &&& expands(
                nodes(before[i].arena@),
                nodes(after[i].arena@),
                0,
                before[i].position.legal@,
                policy_row(out.0@, r),
                arith,
            )
            &&& after[i].line == before[i].line
            &&& after[i].history == before[i].history
            &&& after[i].done == before[i].done
        },
{
    let need = bare_roots(before, before.len());
    lemma_bare_roots(before, before.len());
    let (enc, out) = choose|enc: Vec<Real32>, out: (Vec<Real32>, Vec<Real>)| #[trigger]
        call_ensures(E::eval, (&net, &enc, need.len() as usize), out) && is_root_batch(
            before,
            need,
            enc@,
        ) && expands_roots(before, after, need, out.0@, arith);
    let k = choose|k: int| 0 <= k < need.len() && need[k] == i as usize;
    if !before[i].done && !before[i].arena@[0].expanded {
        assert(need.contains(i as usize));
        assert(gets_root(before[need[k] as int], after[need[k] as int], out.0@, k, arith));
        assert(row_of(enc@, k) == before[need[k] as int].position.enc@);
    } else if need.contains(i as usize) {
        assert(!before[need[k] as int].done);
    }
    (k, enc, need.len() as usize, out)
}

/// How a search begins, before its simulations: the roots that lack their moves get them, and then,
/// where noise is wanted, every game gets its noise at the root; where it is not, nothing else
/// happens. A search without simulations ends there.
pub proof fn noise_comes_before_simulations<A: Arithmetic, T: Table, E: Evaluator>(
    before: Seq<Game>,
    after: Seq<Game>,
    seats: Seq<u64>,
    n: int,
    noise: bool,
    arith: A,
    table: T,
    net: E,
) -> (stages: (Seq<Game>, Seq<Seq<Game>>))
    requires
        searches(before, after, seats, n, noise, arith, table, net),
        0 <= n,
    ensures
        ({
            let (rooted, states) = stages;
            &&& root_stage(before, rooted, arith, net)
            &&& states.len() == n + 1
            &&& noise ==> states[0].len() == rooted.len() && forall|i: int|
                0 <= i < rooted.len() ==> gets_root_noise(
                    rooted[i],
                    #[trigger] states[0][i],
                    arith,
                    table,
                    seats[i],
                )
            &&& !noise ==> states[0] == rooted
            &&& states[n] == after
            &&& forall|k: int|
                0 <= k < n ==> sim_stage(
                    #[trigger] states[k],
                    states[k + 1],
                    seats,
                    arith,
                    table,
                    net,
                )
        }),
{
    let (mid, states) = choose|mid: Seq<Game>, states: Seq<Seq<Game>>|
        {
            &&& #[trigger] root_stage(before, mid, arith, net)
            &&& #[trigger] noise_stage(mid, states[0], seats, noise, arith, table)
            &&& states.len() == n + 1
            &&& states[n] == after
            &&& forall|k: int|
                0 <= k < n ==> #[trigger] sim_at(states, k, seats, arith, table, net)
        };
    assert forall|k: int| 0 <= k < n implies sim_stage(
        #[trigger] states[k],
        states[k + 1],
        seats,
        arith,
        table,
        net,
    ) by {
        assert(sim_at(states, k, seats, arith, table, net));
    }
    (mid, states)
}

} // verus!

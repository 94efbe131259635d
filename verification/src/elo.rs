//! Ratings of players from the results of their games, and the choice of opponents by
//! rating.

use crate::ieee::{greater, gt, is_nan, nan, Real};
use vstd::prelude::*;

verus! {

/// What a player's rating is improved by: games against one opponent.
#[derive(Clone, Copy, PartialEq, Eq, Structural, Debug)]
pub struct Pairing {
    /// Rating of the opponent.
    pub opponent: Real,
    /// Points of the player who is named first in the result.
    pub score_a: Real,
    /// Whether that is the opponent.
    pub flipped: bool,
    pub n: i64,
}

/// Arithmetic on ratings. Nothing is promised of the answers.
pub trait RatingScale {
    /// A better rating for a player with the given rating and results.
    fn improve(&self, own: Real, results: &Vec<Pairing>) -> Real;

    /// How far a rating is from a mark: the one numbered `mark`, counted from zero, of `marks`
    /// marks that divide the way from zero to the ceiling evenly.
    fn distance(&self, rating: Real, ceiling: Real, mark: usize, marks: usize) -> Real;

    /// A number of half points as points.
    fn points(&self, halves: i64) -> Real;

    /// A rating as it is written down.
    fn rounded(&self, rating: Real) -> Real;

    /// What the rating of a challenger has to exceed, given that of the served model, if it
    /// has one, and the margin.
    fn threshold(&self, served: Option<Real>, margin: Real) -> Real;
}

/// The result of games between two players.
pub struct MatchResult {
    pub a: String,
    pub b: String,
    /// Points of the first player.
    pub score_a: Real,
    /// Number of games.
    pub n: i64,
}

// --- ratings -----------------------------------------------------------------

/// The names as sequences of characters.
pub open spec fn names_of(names: Seq<String>) -> Seq<Seq<char>> {
    Seq::new(names.len(), |i: int| names[i]@)
}

/// The name stands at place `i`.
pub open spec fn stands_at(names: Seq<String>, name: Seq<char>, i: int) -> bool {
    0 <= i < names.len() && names[i]@ == name
}

/// The name is among the names.
pub open spec fn is_named(names: Seq<String>, name: Seq<char>) -> bool {
    exists|i: int| #[trigger] stands_at(names, name, i)
}

/// No name stands in two places.
pub open spec fn distinct(names: Seq<String>) -> bool {
    forall|i: int, j: int|
        0 <= i < names.len() && 0 <= j < names.len() && (#[trigger] names[i])@ == (
        #[trigger] names[j])@ ==> i == j
}

/// Place of a name.
pub fn find_name(names: &Vec<String>, name: &String) -> (at: Option<usize>)
    ensures
        match at {
            Some(i) => stands_at(names@, name@, i as int) && forall|k: int|
                0 <= k < i ==> (#[trigger] names@[k])@ != name@,
            None => !is_named(names@, name@),
        },
{
    let mut i: usize = 0;
    while i < names.len()
        invariant
            0 <= i <= names@.len(),
            forall|k: int| 0 <= k < i ==> (#[trigger] names@[k])@ != name@,
        decreases names@.len() - i,
    {
        if names[i] == *name {
            assert(stands_at(names@, name@, i as int));
            return Some(i);
        }
        i += 1;
    }
    assert forall|k: int| !#[trigger] stands_at(names@, name@, k) by {}
    None
}

/// A result of games between players given by their places.
#[derive(Clone, Copy, PartialEq, Eq, Structural, Debug)]
pub struct Played {
    pub a: usize,
    pub b: usize,
    pub score_a: Real,
    pub n: i64,
}

/// What the results say of player `p`, with the ratings of the opponents.
pub open spec fn pairings(games: Seq<Played>, p: usize, ratings: Seq<Real>, n: nat) -> Seq<Pairing>
    decreases n,
{
    if n == 0 {
        Seq::empty()
    } else {
        let rest = pairings(games, p, ratings, (n - 1) as nat);
        let g = games[n - 1];
        let first = if g.a == p {
            rest.push(
                Pairing {
                    opponent: ratings[g.b as int],
                    score_a: g.score_a,
                    flipped: false,
                    n: g.n,
                },
            )
        } else {
            rest
        };
        if g.b == p {
            first.push(
                Pairing {
                    opponent: ratings[g.a as int],
                    score_a: g.score_a,
                    flipped: true,
                    n: g.n,
                },
            )
        } else {
            first
        }
    }
}

/// The results name players that there are.
pub open spec fn games_ok(games: Seq<Played>, n: int) -> bool {
    forall|k: int|
        0 <= k < games.len() ==> (#[trigger] games[k]).a < n && games[k].b < n
}

/// Collects what the results say of player `p`.
fn collect(games: &Vec<Played>, p: usize, ratings: &Vec<Real>) -> (out: Vec<Pairing>)
    requires
        games_ok(games@, ratings@.len() as int),
    ensures
        out@ == pairings(games@, p, ratings@, games@.len()),
{
    let mut out: Vec<Pairing> = Vec::new();
    let mut k: usize = 0;
    while k < games.len()
        invariant
            0 <= k <= games@.len(),
            games_ok(games@, ratings@.len() as int),
            out@ == pairings(games@, p, ratings@, k as nat),
        decreases games@.len() - k,
    {
        let g = games[k];
        assert(games@[k as int].a < ratings@.len());
        if g.a == p {
            out.push(
                Pairing { opponent: ratings[g.b], score_a: g.score_a, flipped: false, n: g.n },
            );
        }
        if g.b == p {
            out.push(Pairing { opponent: ratings[g.a], score_a: g.score_a, flipped: true, n: g.n });
        }
        k += 1;
    }
    out
}

/// The rating of player `p` is improved, unless it is pinned.
pub open spec fn rates<S: RatingScale>(
    before: Seq<Real>,
    after: Seq<Real>,
    p: int,
    games: Seq<Played>,
    pinned: Seq<Option<Real>>,
    scale: S,
) -> bool {
    if pinned[p] is Some {
        after == before
    } else {
        exists|results: Vec<Pairing>, better: Real| #[trigger]
            call_ensures(S::improve, (&scale, before[p], &results), better) && results@ == pairings(
                games,
                p as usize,
                before,
                games.len(),
            ) && after == before.update(p, better)
    }
}

/// The `p`-th step of a sweep.
pub open spec fn rates_at<S: RatingScale>(
    steps: Seq<Seq<Real>>,
    p: int,
    games: Seq<Played>,
    pinned: Seq<Option<Real>>,
    scale: S,
) -> bool {
    rates(steps[p], steps[p + 1], p, games, pinned, scale)
}

/// One sweep improves every player once, in order.
pub open spec fn sweeps<S: RatingScale>(
    before: Seq<Real>,
    after: Seq<Real>,
    games: Seq<Played>,
    pinned: Seq<Option<Real>>,
    scale: S,
) -> bool {
    exists|steps: Seq<Seq<Real>>|
        {
            &&& #[trigger] steps.len() == before.len() + 1
            &&& steps[0] == before
            &&& steps[before.len() as int] == after
            &&& forall|p: int|
                0 <= p < before.len() ==> #[trigger] rates_at(steps, p, games, pinned, scale)
        }
}

/// The `k`-th of many sweeps.
pub open spec fn sweeps_at<S: RatingScale>(
    states: Seq<Seq<Real>>,
    k: int,
    games: Seq<Played>,
    pinned: Seq<Option<Real>>,
    scale: S,
) -> bool {
    sweeps(states[k], states[k + 1], games, pinned, scale)
}

/// The ratings to start from: pinned ones at their value, all others at zero.
pub open spec fn first_ratings(pinned: Seq<Option<Real>>) -> Seq<Real> {
    Seq::new(
        pinned.len(),
        |p: int|
            match pinned[p] {
                Some(v) => v,
                None => crate::ieee::ZERO,
            },
    )
}

/// Ratings that `iters` sweeps lead to.
pub open spec fn fits<S: RatingScale>(
    ratings: Seq<Real>,
    games: Seq<Played>,
    pinned: Seq<Option<Real>>,
    iters: int,
    scale: S,
) -> bool {
    exists|states: Seq<Seq<Real>>|
        {
            &&& #[trigger] states.len() == iters + 1
            &&& states[0] == first_ratings(pinned)
            &&& states[iters] == ratings
            &&& forall|k: int|
                0 <= k < iters ==> #[trigger] sweeps_at(states, k, games, pinned, scale)
        }
}

/// Every pinned player has its rating.
pub open spec fn keeps_pins(ratings: Seq<Real>, pinned: Seq<Option<Real>>) -> bool {
    &&& ratings.len() == pinned.len()
    &&& forall|p: int| 0 <= p < pinned.len() ==> ((#[trigger] pinned[p]) matches Some(v) ==> ratings[p] == v)
}

/// One sweep over all players.
fn sweep<S: RatingScale>(
    ratings: &mut Vec<Real>,
    games: &Vec<Played>,
    pinned: &Vec<Option<Real>>,
    scale: &S,
)
    requires
        games_ok(games@, old(ratings)@.len() as int),
        keeps_pins(old(ratings)@, pinned@),
    ensures
        sweeps(old(ratings)@, final(ratings)@, games@, pinned@, *scale),
        keeps_pins(final(ratings)@, pinned@),
{
    let ghost start = ratings@;
    let ghost mut steps: Seq<Seq<Real>> = seq![ratings@];
    let mut p: usize = 0;
    while p < pinned.len()
        invariant
            0 <= p <= pinned@.len(),
            start.len() == pinned@.len(),
            games_ok(games@, start.len() as int),
            keeps_pins(ratings@, pinned@),
            steps.len() == p + 1,
            steps[0] == start,
            steps[p as int] == ratings@,
            forall|k: int|
                0 <= k < p ==> #[trigger] rates_at(steps, k, games@, pinned@, *scale),
        decreases pinned@.len() - p,
    {
        let ghost before = ratings@;
        if pinned[p].is_none() {
            let results = collect(games, p, ratings);
            let better = scale.improve(ratings[p], &results);
            assert(call_ensures(S::improve, (scale, before[p as int], &results), better));
            ratings.set(p, better);
        }
        proof {
            assert(rates(before, ratings@, p as int, games@, pinned@, *scale));
            let earlier = steps;
            steps = steps.push(ratings@);
            assert forall|k: int| 0 <= k < p + 1 implies #[trigger] rates_at(
                steps,
                k,
                games@,
                pinned@,
                *scale,
            ) by {
                if k < p {
                    assert(rates_at(earlier, k, games@, pinned@, *scale));
                    assert(steps[k] == earlier[k] && steps[k + 1] == earlier[k + 1]);
                }
            }
        }
        p += 1;
    }
    assert(steps.len() == start.len() + 1);
}

/// Ratings of players from the results of their games: repeatedly improves each player's
/// rating in turn. Pinned players keep theirs.
pub fn fit_ratings<S: RatingScale>(
    games: &Vec<Played>,
    pinned: &Vec<Option<Real>>,
    iters: usize,
    scale: &S,
) -> (ratings: Vec<Real>)
    requires
        games_ok(games@, pinned@.len() as int),
    ensures
        fits(ratings@, games@, pinned@, iters as int, *scale),
        keeps_pins(ratings@, pinned@),
{
    let mut ratings: Vec<Real> = Vec::new();
    let mut p: usize = 0;
    while p < pinned.len()
        invariant
            0 <= p <= pinned@.len(),
            ratings@ == first_ratings(pinned@).take(p as int),
        decreases pinned@.len() - p,
    {
        let v: Real = match pinned[p] {
            Some(v) => v,
            None => crate::ieee::ZERO,
        };
        ratings.push(v);
        assert(ratings@ =~= first_ratings(pinned@).take(p + 1));
        p += 1;
    }
    assert(ratings@ =~= first_ratings(pinned@));
    let ghost mut states: Seq<Seq<Real>> = seq![ratings@];
    let mut k: usize = 0;
    while k < iters
        invariant
            0 <= k <= iters,
            games_ok(games@, pinned@.len() as int),
            keeps_pins(ratings@, pinned@),
            states.len() == k + 1,
            states[0] == first_ratings(pinned@),
            states[k as int] == ratings@,
            forall|j: int|
                0 <= j < k ==> #[trigger] sweeps_at(states, j, games@, pinned@, *scale),
        decreases iters - k,
    {
        let ghost before = ratings@;
        sweep(&mut ratings, games, pinned, scale);
        proof {
            let earlier = states;
            states = states.push(ratings@);
            assert forall|j: int| 0 <= j < k + 1 implies #[trigger] sweeps_at(
                states,
                j,
                games@,
                pinned@,
                *scale,
            ) by {
                if j < k {
                    assert(sweeps_at(earlier, j, games@, pinned@, *scale));
                    assert(states[j] == earlier[j] && states[j + 1] == earlier[j + 1]);
                }
            }
        }
        k += 1;
    }
    assert(states.len() == iters + 1);
    ratings
}

/// Place of a name that stands among the names.
pub open spec fn place(names: Seq<String>, name: Seq<char>) -> int {
    choose|i: int| #[trigger] stands_at(names, name, i)
}

/// Every result that counts names players that there are.
pub open spec fn results_ok(names: Seq<String>, games: Seq<MatchResult>) -> bool {
    forall|k: int|
        0 <= k < games.len() && (#[trigger] games[k]).n > 0 ==> is_named(names, games[k].a@)
            && is_named(names, games[k].b@)
}

/// The first `n` results by the places of the players, without those of no games.
pub open spec fn resolved(names: Seq<String>, games: Seq<MatchResult>, n: nat) -> Seq<Played>
    decreases n,
{
    if n == 0 {
        Seq::empty()
    } else {
        let rest = resolved(names, games, (n - 1) as nat);
        let g = games[n - 1];
        if g.n > 0 {
            rest.push(
                Played {
                    a: place(names, g.a@) as usize,
                    b: place(names, g.b@) as usize,
                    score_a: g.score_a,
                    n: g.n,
                },
            )
        } else {
            rest
        }
    }
}

/// The name is pinned by entry `k`.
pub open spec fn pins_at(fixed: Seq<(String, Real)>, name: Seq<char>, k: int) -> bool {
    0 <= k < fixed.len() && fixed[k].0@ == name
}

/// No name is pinned twice.
pub open spec fn pins_distinct(fixed: Seq<(String, Real)>) -> bool {
    forall|i: int, j: int|
        0 <= i < fixed.len() && 0 <= j < fixed.len() && (#[trigger] fixed[i]).0@ == (
        #[trigger] fixed[j]).0@ ==> i == j
}

/// The rating that a name is pinned at, if any.
pub open spec fn pin_of(fixed: Seq<(String, Real)>, name: Seq<char>) -> Option<Real> {
    if exists|k: int| #[trigger] pins_at(fixed, name, k) {
        Some(fixed[choose|k: int| #[trigger] pins_at(fixed, name, k)].1)
    } else {
        None
    }
}

/// The ratings that the players are pinned at.
pub open spec fn pins_of(names: Seq<String>, fixed: Seq<(String, Real)>) -> Seq<Option<Real>> {
    Seq::new(names.len(), |i: int| pin_of(fixed, names[i]@))
}

proof fn lemma_place(names: Seq<String>, name: Seq<char>, i: int)
    requires
        distinct(names),
        stands_at(names, name, i),
    ensures
        place(names, name) == i,
{
    let j = place(names, name);
    assert(stands_at(names, name, j));
    assert(names[i]@ == names[j]@);
}

/// The rating that a name is pinned at.
fn find_pin(fixed: &Vec<(String, Real)>, name: &String) -> (pin: Option<Real>)
    requires
        pins_distinct(fixed@),
    ensures
        pin == pin_of(fixed@, name@),
{
    let mut k: usize = 0;
    while k < fixed.len()
        invariant
            0 <= k <= fixed@.len(),
            pins_distinct(fixed@),
            forall|j: int| 0 <= j < k ==> (#[trigger] fixed@[j]).0@ != name@,
        decreases fixed@.len() - k,
    {
        if fixed[k].0 == *name {
            proof {
                assert(pins_at(fixed@, name@, k as int));
                let j = choose|j: int| #[trigger] pins_at(fixed@, name@, j);
                assert(pins_at(fixed@, name@, j));
                assert(fixed@[j].0@ == fixed@[k as int].0@);
            }
            return Some(fixed[k].1);
        }
        k += 1;
    }
    assert forall|j: int| !#[trigger] pins_at(fixed@, name@, j) by {}
    None
}

/// The first `n` pins whose names are not among the names, in order.
pub open spec fn unlisted(names: Seq<String>, fixed: Seq<(String, Real)>, n: nat) -> Seq<
    (Seq<char>, Real),
>
    decreases n,
{
    if n == 0 {
        Seq::empty()
    } else {
        let rest = unlisted(names, fixed, (n - 1) as nat);
        let (name, rating) = fixed[n - 1];
        if is_named(names, name@) {
            rest
        } else {
            rest.push((name@, rating))
        }
    }
}

/// Named ratings as mathematical values.
pub open spec fn named_ratings(pins: Seq<(String, Real)>) -> Seq<(Seq<char>, Real)> {
    Seq::new(pins.len(), |k: int| (pins[k].0@, pins[k].1))
}

/// Lists the pins whose names are not among the names.
fn list_unlisted(names: &Vec<String>, fixed: &Vec<(String, Real)>) -> (others: Vec<(String, Real)>)
    ensures
        named_ratings(others@) == unlisted(names@, fixed@, fixed@.len()),
{
    let mut others: Vec<(String, Real)> = Vec::new();
    let mut k: usize = 0;
    assert(named_ratings(others@) =~= unlisted(names@, fixed@, 0));
    while k < fixed.len()
        invariant
            0 <= k <= fixed@.len(),
            named_ratings(others@) == unlisted(names@, fixed@, k as nat),
        decreases fixed@.len() - k,
    {
        let (name, rating) = &fixed[k];
        match find_name(names, name) {
            Some(i) => {
                assert(stands_at(names@, name@, i as int));
            },
            None => {
                let ghost before = others@;
                others.push((name.clone(), *rating));
                assert(named_ratings(others@) =~= named_ratings(before).push((name@, *rating)));
            },
        }
        k += 1;
    }
    others
}

/// The rating that a name has been given: its place among the named players' ratings, or its
/// entry among the others.
pub open spec fn is_rated(
    names: Seq<String>,
    ratings: Seq<Real>,
    others: Seq<(Seq<char>, Real)>,
    name: Seq<char>,
    rating: Real,
) -> bool {
    ||| exists|i: int| #[trigger] stands_at(names, name, i) && ratings[i] == rating
    ||| exists|k: int| 0 <= k < others.len() && #[trigger] others[k] == (name, rating)
}

/// Every pinned name has its rating, whether it is listed or not, and nobody else has a rating
/// but the listed names.
pub proof fn pins_are_kept(names: Seq<String>, ratings: Seq<Real>, fixed: Seq<(String, Real)>)
    requires
        pins_distinct(fixed),
        keeps_pins(ratings, pins_of(names, fixed)),
    ensures
        forall|k: int|
            0 <= k < fixed.len() ==> is_rated(
                names,
                ratings,
                unlisted(names, fixed, fixed.len()),
                (#[trigger] fixed[k]).0@,
                fixed[k].1,
            ),
        forall|name: Seq<char>, rating: Real| #[trigger]
            is_rated(names, ratings, unlisted(names, fixed, fixed.len()), name, rating)
                ==> is_named(names, name) || pin_of(fixed, name) == Some(rating),
{
    let others = unlisted(names, fixed, fixed.len());
    assert forall|k: int| 0 <= k < fixed.len() implies is_rated(
        names,
        ratings,
        others,
        (#[trigger] fixed[k]).0@,
        fixed[k].1,
    ) by {
        let name = fixed[k].0@;
        lemma_pin(fixed, k);
        if is_named(names, name) {
            let i = choose|i: int| #[trigger] stands_at(names, name, i);
            assert(pins_of(names, fixed)[i] == Some(fixed[k].1));
            assert(stands_at(names, name, i) && ratings[i] == fixed[k].1);
        } else {
            lemma_unlisted(names, fixed, fixed.len(), k);
        }
    }
    assert forall|name: Seq<char>, rating: Real| #[trigger]
        is_rated(names, ratings, others, name, rating) implies is_named(names, name) || pin_of(
        fixed,
        name,
    ) == Some(rating) by {
        if !is_named(names, name) {
            let k = choose|k: int| 0 <= k < others.len() && #[trigger] others[k] == (name, rating);
            let j = lemma_unlisted_is_pinned(names, fixed, fixed.len(), k);
            lemma_pin(fixed, j);
        }
    }
}

proof fn lemma_pin(fixed: Seq<(String, Real)>, k: int)
    requires
        pins_distinct(fixed),
        0 <= k < fixed.len(),
    ensures
        pin_of(fixed, fixed[k].0@) == Some(fixed[k].1),
{
    let name = fixed[k].0@;
    assert(pins_at(fixed, name, k));
    let j = choose|j: int| #[trigger] pins_at(fixed, name, j);
    assert(pins_at(fixed, name, j));
    assert(fixed[j].0@ == fixed[k].0@);
}

proof fn lemma_unlisted(names: Seq<String>, fixed: Seq<(String, Real)>, n: nat, k: int)
    requires
        n <= fixed.len(),
        0 <= k < n,
        !is_named(names, fixed[k].0@),
    ensures
        exists|j: int|
            0 <= j < unlisted(names, fixed, n).len() && #[trigger] unlisted(names, fixed, n)[j] == (
                fixed[k].0@,
                fixed[k].1,
            ),
    decreases n,
{
    let all = unlisted(names, fixed, n);
    let rest = unlisted(names, fixed, (n - 1) as nat);
    if k == n - 1 {
        assert(all[all.len() - 1] == (fixed[k].0@, fixed[k].1));
    } else {
        lemma_unlisted(names, fixed, (n - 1) as nat, k);
        let j = choose|j: int|
            0 <= j < rest.len() && #[trigger] rest[j] == (fixed[k].0@, fixed[k].1);
        assert(all[j] == rest[j]);
    }
}

proof fn lemma_unlisted_is_pinned(
    names: Seq<String>,
    fixed: Seq<(String, Real)>,
    n: nat,
    k: int,
) -> (j: int)
    requires
        n <= fixed.len(),
        0 <= k < unlisted(names, fixed, n).len(),
    ensures
        0 <= j < n,
        unlisted(names, fixed, n)[k] == (fixed[j].0@, fixed[j].1),
    decreases n,
{
    let rest = unlisted(names, fixed, (n - 1) as nat);
    if k < rest.len() {
        lemma_unlisted_is_pinned(names, fixed, (n - 1) as nat, k)
    } else {
        n - 1
    }
}

/// The results that count: those of at least one game.
pub open spec fn counted(games: Seq<MatchResult>) -> Seq<MatchResult> {
    games.filter(|g: MatchResult| g.n > 0)
}

/// Results of no games change nothing, whoever they name: the rest is in order when the whole
/// list is, and the ratings follow from the rest alone.
pub proof fn results_without_games_change_nothing(names: Seq<String>, games: Seq<MatchResult>)
    ensures
        results_ok(names, games) == results_ok(names, counted(games)),
        resolved(names, games, games.len()) == resolved(
            names,
            counted(games),
            counted(games).len(),
        ),
    decreases games.len(),
{
    let counts = |g: MatchResult| g.n > 0;
    reveal(Seq::filter);
    if games.len() > 0 {
        let front = games.drop_last();
        let last = games.last();
        results_without_games_change_nothing(names, front);
        lemma_resolved_front(names, games, front, front.len());
        let few = counted(front);
        let all = counted(games);
        assert(all == if last.n > 0 {
            few.push(last)
        } else {
            few
        });
        lemma_resolved_front(names, all, few, few.len());
        assert(results_ok(names, games) == (results_ok(names, front) && (last.n > 0 ==> is_named(
            names,
            last.a@,
        ) && is_named(names, last.b@)))) by {
            lemma_results_ok_front(names, front, last);
            assert(games =~= front.push(last));
        }
        if last.n > 0 {
            lemma_results_ok_front(names, few, last);
        }
    }
}

proof fn lemma_resolved_front(
    names: Seq<String>,
    games: Seq<MatchResult>,
    front: Seq<MatchResult>,
    n: nat,
)
    requires
        n <= front.len() <= games.len(),
        forall|k: int| 0 <= k < front.len() ==> #[trigger] front[k] == games[k],
    ensures
        resolved(names, games, n) == resolved(names, front, n),
    decreases n,
{
    if n > 0 {
        assert(front[n - 1] == games[n - 1]);
        lemma_resolved_front(names, games, front, (n - 1) as nat);
    }
}

proof fn lemma_results_ok_front(names: Seq<String>, front: Seq<MatchResult>, last: MatchResult)
    ensures
        results_ok(names, front.push(last)) == (results_ok(names, front) && (last.n > 0
            ==> is_named(names, last.a@) && is_named(names, last.b@))),
{
    let games = front.push(last);
    if results_ok(names, games) {
        assert(games[front.len() as int] == last);
        assert forall|k: int| 0 <= k < front.len() && (#[trigger] front[k]).n > 0 implies is_named(
            names,
            front[k].a@,
        ) && is_named(names, front[k].b@) by {
            assert(games[k] == front[k]);
        }
    }
}

/// Ratings of the named players from the results of their games. Players that are pinned
/// keep the rating given for them; pins of other names are given back beside the ratings.
pub fn fit_elo<S: RatingScale>(
    names: &Vec<String>,
    games: &Vec<MatchResult>,
    fixed: &Vec<(String, Real)>,
    iters: usize,
    scale: &S,
) -> (out: (Vec<Real>, Vec<(String, Real)>))
    requires
        distinct(names@),
        pins_distinct(fixed@),
        results_ok(names@, games@),
    ensures
        fits(
            out.0@,
            resolved(names@, games@, games@.len()),
            pins_of(names@, fixed@),
            iters as int,
            *scale,
        ),
        keeps_pins(out.0@, pins_of(names@, fixed@)),
        out.0@.len() == names@.len(),
        named_ratings(out.1@) == unlisted(names@, fixed@, fixed@.len()),
{
    let mut played: Vec<Played> = Vec::new();
    let mut k: usize = 0;
    while k < games.len()
        invariant
            0 <= k <= games@.len(),
            distinct(names@),
            results_ok(names@, games@),
            played@ == resolved(names@, games@, k as nat),
            games_ok(played@, names@.len() as int),
        decreases games@.len() - k,
    {
        let g = &games[k];
        if g.n > 0 {
            assert(games@[k as int].n > 0);
            let a = find_name(names, &g.a);
            let b = find_name(names, &g.b);
            if let (Some(i), Some(j)) = (a, b) {
                proof {
                    lemma_place(names@, g.a@, i as int);
                    lemma_place(names@, g.b@, j as int);
                }
                let ghost before = played@;
                played.push(Played { a: i, b: j, score_a: g.score_a, n: g.n });
                assert forall|l: int| 0 <= l < played@.len() implies (#[trigger] played@[l]).a
                    < names@.len() && played@[l].b < names@.len() by {
                    if l < before.len() {
                        assert(played@[l] == before[l]);
                    }
                }
            }
        }
        k += 1;
    }
    let mut pinned: Vec<Option<Real>> = Vec::new();
    let mut i: usize = 0;
    while i < names.len()
        invariant
            0 <= i <= names@.len(),
            pins_distinct(fixed@),
            pinned@ == pins_of(names@, fixed@).take(i as int),
        decreases names@.len() - i,
    {
        pinned.push(find_pin(fixed, &names[i]));
        assert(pinned@ =~= pins_of(names@, fixed@).take(i + 1));
        i += 1;
    }
    assert(pinned@ =~= pins_of(names@, fixed@));
    (fit_ratings(&played, &pinned, iters, scale), list_unlisted(names, fixed))
}

/// The results tell nothing of player `p`.
pub open spec fn plays_nothing(games: Seq<Played>, p: int) -> bool {
    forall|k: int| 0 <= k < games.len() ==> (#[trigger] games[k]).a != p && games[k].b != p
}

/// Without results a rating of zero stays at zero.
pub open spec fn zero_stays<S: RatingScale>(scale: S) -> bool {
    forall|results: &Vec<Pairing>, x: Real| #[trigger]
        call_ensures(S::improve, (&scale, crate::ieee::ZERO, results), x) && results@.len() == 0
            ==> x == crate::ieee::ZERO
}

proof fn lemma_no_pairings(games: Seq<Played>, p: usize, ratings: Seq<Real>, n: nat)
    requires
        n <= games.len(),
        plays_nothing(games, p as int),
    ensures
        pairings(games, p, ratings, n).len() == 0,
    decreases n,
{
    if n > 0 {
        assert(games[n - 1].a != p);
        lemma_no_pairings(games, p, ratings, (n - 1) as nat);
    }
}

proof fn lemma_zero_in_a_sweep<S: RatingScale>(
    steps: Seq<Seq<Real>>,
    p: int,
    games: Seq<Played>,
    pinned: Seq<Option<Real>>,
    k: nat,
    n: nat,
    scale: S,
)
    requires
        0 <= p < n <= usize::MAX,
        k <= n,
        steps[0].len() == n,
        steps[0][p] == crate::ieee::ZERO,
        plays_nothing(games, p),
        pinned[p] is None,
        zero_stays(scale),
        forall|q: int| 0 <= q < n ==> #[trigger] rates_at(steps, q, games, pinned, scale),
    ensures
        steps[k as int].len() == n,
        steps[k as int][p] == crate::ieee::ZERO,
    decreases k,
{
    if k > 0 {
        lemma_zero_in_a_sweep(steps, p, games, pinned, (k - 1) as nat, n, scale);
        let q = k - 1;
        let before = steps[q];
        assert(rates_at(steps, q, games, pinned, scale));
        if pinned[q] is None {
            let (results, better) = choose|results: Vec<Pairing>, better: Real| #[trigger]
                call_ensures(S::improve, (&scale, before[q], &results), better) && results@
                    == pairings(games, q as usize, before, games.len()) && steps[q + 1]
                    == before.update(q, better);
            if q == p {
                lemma_no_pairings(games, p as usize, before, games.len());
            }
        }
    }
}

proof fn lemma_zero_in_sweeps<S: RatingScale>(
    states: Seq<Seq<Real>>,
    p: int,
    games: Seq<Played>,
    pinned: Seq<Option<Real>>,
    k: nat,
    iters: nat,
    scale: S,
)
    requires
        0 <= p < pinned.len() <= usize::MAX,
        k <= iters,
        states[0] == first_ratings(pinned),
        plays_nothing(games, p),
        pinned[p] is None,
        zero_stays(scale),
        forall|j: int| 0 <= j < iters ==> #[trigger] sweeps_at(states, j, games, pinned, scale),
    ensures
        states[k as int].len() == pinned.len(),
        states[k as int][p] == crate::ieee::ZERO,
    decreases k,
{
    if k > 0 {
        lemma_zero_in_sweeps(states, p, games, pinned, (k - 1) as nat, iters, scale);
        let before = states[k - 1];
        assert(sweeps_at(states, k - 1, games, pinned, scale));
        let steps = choose|steps: Seq<Seq<Real>>|
            {
                &&& #[trigger] steps.len() == before.len() + 1
                &&& steps[0] == before
                &&& steps[before.len() as int] == states[k as int]
                &&& forall|q: int|
                    0 <= q < before.len() ==> #[trigger] rates_at(steps, q, games, pinned, scale)
            };
        lemma_zero_in_a_sweep(steps, p, games, pinned, before.len(), before.len(), scale);
    }
}

/// A player without games who is not pinned has the rating zero.
pub proof fn players_without_games_stay_at_zero<S: RatingScale>(
    ratings: Seq<Real>,
    p: int,
    games: Seq<Played>,
    pinned: Seq<Option<Real>>,
    iters: nat,
    scale: S,
)
    requires
        fits(ratings, games, pinned, iters as int, scale),
        0 <= p < pinned.len() <= usize::MAX,
        pinned[p] is None,
        plays_nothing(games, p),
        zero_stays(scale),
    ensures
        ratings[p] == crate::ieee::ZERO,
{
    let n = iters as int;
    let states = choose|states: Seq<Seq<Real>>|
        {
            &&& #[trigger] states.len() == n + 1
            &&& states[0] == first_ratings(pinned)
            &&& states[n] == ratings
            &&& forall|k: int| 0 <= k < n ==> #[trigger] sweeps_at(states, k, games, pinned, scale)
        };
    lemma_zero_in_sweeps(states, p, games, pinned, iters, iters, scale);
}

// --- either side of a result -------------------------------------------------

/// Tells whether the one player's points and the other's are the two sides of a result of so
/// many games.
pub type Mirror = spec_fn(Real, Real, i64) -> bool;

/// The same result, seen from the same side or written from the other.
pub open spec fn reads_alike(x: Pairing, y: Pairing, mirror: Mirror) -> bool {
    ||| y == x
    ||| y == (Pairing { flipped: !x.flipped, score_a: y.score_a, ..x }) && mirror(
        x.score_a,
        y.score_a,
        x.n,
    )
}

/// The results read alike, one by one.
pub open spec fn all_read_alike(xs: Seq<Pairing>, ys: Seq<Pairing>, mirror: Mirror) -> bool {
    &&& ys.len() == xs.len()
    &&& forall|k: int| 0 <= k < xs.len() ==> reads_alike(#[trigger] xs[k], ys[k], mirror)
}

/// The scale makes the same of results that read alike.
pub open spec fn sides_agree<S: RatingScale>(scale: S, mirror: Mirror) -> bool {
    forall|own: Real, r: &Vec<Pairing>, s: &Vec<Pairing>, x: Real, y: Real|
        #![trigger call_ensures(S::improve, (&scale, own, r), x), call_ensures(S::improve, (&scale, own, s), y)]
        all_read_alike(r@, s@, mirror) && call_ensures(S::improve, (&scale, own, r), x)
            && call_ensures(S::improve, (&scale, own, s), y) ==> x == y
}

/// The same result, with the players named in the same order or in the other.
pub open spec fn is_turned(g: MatchResult, h: MatchResult, mirror: Mirror) -> bool {
    &&& h.n == g.n
    &&& {
        ||| h.a@ == g.a@ && h.b@ == g.b@ && h.score_a == g.score_a
        ||| g.a@ != g.b@ && h.a@ == g.b@ && h.b@ == g.a@ && mirror(g.score_a, h.score_a, g.n)
    }
}

/// The same result by places, with the players in the same order or in the other.
pub open spec fn is_turned_played(g: Played, h: Played, mirror: Mirror) -> bool {
    ||| h == g
    ||| g.a != g.b && h == (Played { a: g.b, b: g.a, score_a: h.score_a, n: g.n }) && mirror(
        g.score_a,
        h.score_a,
        g.n,
    )
}

proof fn lemma_turned_results(
    names: Seq<String>,
    games: Seq<MatchResult>,
    turned: Seq<MatchResult>,
    n: nat,
    mirror: Mirror,
)
    requires
        distinct(names),
        names.len() <= usize::MAX,
        results_ok(names, games),
        n <= games.len(),
        turned.len() == games.len(),
        forall|k: int| 0 <= k < games.len() ==> is_turned(#[trigger] games[k], turned[k], mirror),
    ensures
        resolved(names, turned, n).len() == resolved(names, games, n).len(),
        forall|k: int|
            0 <= k < resolved(names, games, n).len() ==> is_turned_played(
                #[trigger] resolved(names, games, n)[k],
                resolved(names, turned, n)[k],
                mirror,
            ),
    decreases n,
{
    if n > 0 {
        lemma_turned_results(names, games, turned, (n - 1) as nat, mirror);
        let g = games[n - 1];
        let h = turned[n - 1];
        assert(is_turned(games[n - 1], turned[n - 1], mirror));
        let rest = resolved(names, games, (n - 1) as nat);
        let all = resolved(names, games, n);
        let other = resolved(names, turned, n);
        if g.n > 0 {
            assert(is_named(names, g.a@) && is_named(names, g.b@));
            let i = place(names, g.a@);
            let j = place(names, g.b@);
            assert(stands_at(names, g.a@, i) && stands_at(names, g.b@, j));
            assert(is_turned_played(all[rest.len() as int], other[rest.len() as int], mirror));
        }
        assert forall|k: int| 0 <= k < all.len() implies is_turned_played(
            #[trigger] all[k],
            other[k],
            mirror,
        ) by {
            if k < rest.len() {
                assert(is_turned_played(
                    rest[k],
                    resolved(names, turned, (n - 1) as nat)[k],
                    mirror,
                ));
            }
        }
    }
}

proof fn lemma_turned_pairings(
    games: Seq<Played>,
    turned: Seq<Played>,
    p: usize,
    ratings: Seq<Real>,
    n: nat,
    mirror: Mirror,
)
    requires
        n <= games.len(),
        turned.len() == games.len(),
        forall|k: int|
            0 <= k < games.len() ==> is_turned_played(#[trigger] games[k], turned[k], mirror),
    ensures
        all_read_alike(
            pairings(games, p, ratings, n),
            pairings(turned, p, ratings, n),
            mirror,
        ),
    decreases n,
{
    if n > 0 {
        lemma_turned_pairings(games, turned, p, ratings, (n - 1) as nat, mirror);
        assert(is_turned_played(games[n - 1], turned[n - 1], mirror));
        let rest = pairings(games, p, ratings, (n - 1) as nat);
        let other_rest = pairings(turned, p, ratings, (n - 1) as nat);
        let all = pairings(games, p, ratings, n);
        let other = pairings(turned, p, ratings, n);
        assert forall|k: int| 0 <= k < all.len() implies reads_alike(
            #[trigger] all[k],
            other[k],
            mirror,
        ) by {
            if k < rest.len() {
                assert(all[k] == rest[k]);
                assert(other[k] == other_rest[k]);
                assert(reads_alike(rest[k], other_rest[k], mirror));
            }
        }
    }
}

proof fn lemma_same_sweep<S: RatingScale>(
    steps: Seq<Seq<Real>>,
    others: Seq<Seq<Real>>,
    games: Seq<Played>,
    turned: Seq<Played>,
    pinned: Seq<Option<Real>>,
    p: nat,
    n: nat,
    mirror: Mirror,
    scale: S,
)
    requires
        p <= n,
        steps[0] == others[0],
        turned.len() == games.len(),
        forall|k: int|
            0 <= k < games.len() ==> is_turned_played(#[trigger] games[k], turned[k], mirror),
        sides_agree(scale, mirror),
        forall|q: int| 0 <= q < n ==> #[trigger] rates_at(steps, q, games, pinned, scale),
        forall|q: int| 0 <= q < n ==> #[trigger] rates_at(others, q, turned, pinned, scale),
    ensures
        steps[p as int] == others[p as int],
    decreases p,
{
    if p > 0 {
        let q = p - 1;
        lemma_same_sweep(
            steps,
            others,
            games,
            turned,
            pinned,
            (p - 1) as nat,
            n,
            mirror,
            scale,
        );
        assert(rates_at(steps, q, games, pinned, scale));
        assert(rates_at(others, q, turned, pinned, scale));
        if pinned[q] is None {
            let before = steps[q];
            let (r, x) = choose|results: Vec<Pairing>, better: Real| #[trigger]
                call_ensures(S::improve, (&scale, before[q], &results), better) && results@
                    == pairings(games, q as usize, before, games.len()) && steps[q + 1]
                    == before.update(q, better);
            let (s, y) = choose|results: Vec<Pairing>, better: Real| #[trigger]
                call_ensures(S::improve, (&scale, before[q], &results), better) && results@
                    == pairings(turned, q as usize, before, turned.len()) && others[q + 1]
                    == before.update(q, better);
            lemma_turned_pairings(games, turned, q as usize, before, games.len(), mirror);
            assert(x == y);
        }
    }
}

proof fn lemma_same_sweeps<S: RatingScale>(
    states: Seq<Seq<Real>>,
    others: Seq<Seq<Real>>,
    games: Seq<Played>,
    turned: Seq<Played>,
    pinned: Seq<Option<Real>>,
    k: nat,
    iters: nat,
    mirror: Mirror,
    scale: S,
)
    requires
        k <= iters,
        states[0] == others[0],
        turned.len() == games.len(),
        forall|j: int|
            0 <= j < games.len() ==> is_turned_played(#[trigger] games[j], turned[j], mirror),
        sides_agree(scale, mirror),
        forall|j: int| 0 <= j < iters ==> #[trigger] sweeps_at(states, j, games, pinned, scale),
        forall|j: int| 0 <= j < iters ==> #[trigger] sweeps_at(others, j, turned, pinned, scale),
    ensures
        states[k as int] == others[k as int],
    decreases k,
{
    if k > 0 {
        lemma_same_sweeps(
            states,
            others,
            games,
            turned,
            pinned,
            (k - 1) as nat,
            iters,
            mirror,
            scale,
        );
        let before = states[k - 1];
        assert(sweeps_at(states, k - 1, games, pinned, scale));
        assert(sweeps_at(others, k - 1, turned, pinned, scale));
        let x = choose|steps: Seq<Seq<Real>>|
            {
                &&& #[trigger] steps.len() == before.len() + 1
                &&& steps[0] == before
                &&& steps[before.len() as int] == states[k as int]
                &&& forall|p: int|
                    0 <= p < before.len() ==> #[trigger] rates_at(steps, p, games, pinned, scale)
            };
        let y = choose|steps: Seq<Seq<Real>>|
            {
                &&& #[trigger] steps.len() == before.len() + 1
                &&& steps[0] == before
                &&& steps[before.len() as int] == others[k as int]
                &&& forall|p: int|
                    0 <= p < before.len() ==> #[trigger] rates_at(steps, p, turned, pinned, scale)
            };
        lemma_same_sweep(
            x,
            y,
            games,
            turned,
            pinned,
            before.len(),
            before.len(),
            mirror,
            scale,
        );
    }
}

/// Which player a result names first does not matter: the second player has the points that the
/// first has not, and the ratings are the same.
pub proof fn the_order_in_a_result_does_not_matter<S: RatingScale>(
    names: Seq<String>,
    games: Seq<MatchResult>,
    turned: Seq<MatchResult>,
    pinned: Seq<Option<Real>>,
    iters: nat,
    ratings: Seq<Real>,
    others: Seq<Real>,
    mirror: Mirror,
    scale: S,
)
    requires
        distinct(names),
        names.len() <= usize::MAX,
        results_ok(names, games),
        turned.len() == games.len(),
        forall|k: int| 0 <= k < games.len() ==> is_turned(#[trigger] games[k], turned[k], mirror),
        sides_agree(scale, mirror),
        fits(ratings, resolved(names, games, games.len()), pinned, iters as int, scale),
        fits(others, resolved(names, turned, turned.len()), pinned, iters as int, scale),
    ensures
        ratings == others,
{
    lemma_turned_results(names, games, turned, games.len(), mirror);
    let played = resolved(names, games, games.len());
    let other = resolved(names, turned, turned.len());
    let n = iters as int;
    let x = choose|states: Seq<Seq<Real>>|
        {
            &&& #[trigger] states.len() == n + 1
            &&& states[0] == first_ratings(pinned)
            &&& states[n] == ratings
            &&& forall|k: int|
                0 <= k < n ==> #[trigger] sweeps_at(states, k, played, pinned, scale)
        };
    let y = choose|states: Seq<Seq<Real>>|
        {
            &&& #[trigger] states.len() == n + 1
            &&& states[0] == first_ratings(pinned)
            &&& states[n] == others
            &&& forall|k: int|
                0 <= k < n ==> #[trigger] sweeps_at(states, k, other, pinned, scale)
        };
    lemma_same_sweeps(x, y, played, other, pinned, iters, iters, mirror, scale);
}

// --- opponents ---------------------------------------------------------------

/// The name of the player that moves at random, whose rating is zero.
pub open spec fn random_name() -> Seq<char> {
    "random"@
}

/// The name of the player that moves at random.
pub fn random_player() -> (name: String)
    ensures
        name@ == random_name(),
{
    "random".to_string()
}

/// No rating is without a place in the order.
pub open spec fn ratings_ok(ratings: Seq<Real>) -> bool {
    forall|i: int| 0 <= i < ratings.len() ==> !is_nan(#[trigger] ratings[i])
}

/// Tells whether every rating has a place in the order.
pub fn check_ratings(ratings: &Vec<Real>) -> (ok: bool)
    ensures
        ok == ratings_ok(ratings@),
{
    let mut i: usize = 0;
    while i < ratings.len()
        invariant
            0 <= i <= ratings@.len(),
            forall|k: int| 0 <= k < i ==> !is_nan(#[trigger] ratings@[k]),
        decreases ratings@.len() - i,
    {
        if crate::ieee::nan(ratings[i]) {
            return false;
        }
        i += 1;
    }
    true
}

/// Player `x` is ranked before player `y`: it has the higher rating, or the same and an
/// earlier place.
pub open spec fn ranks_before(ratings: Seq<Real>, x: usize, y: usize) -> bool {
    greater(ratings[x as int], ratings[y as int]) || (!greater(
        ratings[y as int],
        ratings[x as int],
    ) && x < y)
}

/// The order ranks exactly those players that are to be ranked.
pub open spec fn is_ranking(
    names: Seq<String>,
    ratings: Seq<Real>,
    with_random: bool,
    order: Seq<usize>,
) -> bool {
    &&& forall|i: int, j: int|
        0 <= i < j < order.len() ==> ranks_before(ratings, #[trigger] order[i], #[trigger] order[j])
    &&& forall|i: int|
        0 <= i < order.len() ==> (#[trigger] order[i]) < names.len() && is_ranked(
            names,
            with_random,
            order[i] as int,
        )
    &&& forall|x: int|
        0 <= x < names.len() && #[trigger] is_ranked(names, with_random, x) ==> order.contains(
            x as usize,
        )
}

/// The player at place `x` is to be ranked.
pub open spec fn is_ranked(names: Seq<String>, with_random: bool, x: int) -> bool {
    with_random || names[x]@ != random_name()
}

/// Ranks players from the highest rating to the lowest; players with the same rating keep
/// their order. The player that moves at random is left out unless it is asked for.
pub fn rank_players(names: &Vec<String>, ratings: &Vec<Real>, with_random: bool) -> (order: Vec<
    usize,
>)
    requires
        ratings@.len() == names@.len(),
        ratings_ok(ratings@),
    ensures
        is_ranking(names@, ratings@, with_random, order@),
{
    let random = random_player();
    let mut order: Vec<usize> = Vec::new();
    let mut x: usize = 0;
    while x < names.len()
        invariant
            0 <= x <= names@.len(),
            random@ == random_name(),
            ratings@.len() == names@.len(),
            ratings_ok(ratings@),
            forall|i: int, j: int|
                0 <= i < j < order@.len() ==> ranks_before(
                    ratings@,
                    #[trigger] order@[i],
                    #[trigger] order@[j],
                ),
            forall|i: int|
                0 <= i < order@.len() ==> (#[trigger] order@[i]) < x && is_ranked(
                    names@,
                    with_random,
                    order@[i] as int,
                ),
            forall|y: int|
                0 <= y < x && #[trigger] is_ranked(names@, with_random, y) ==> order@.contains(
                    y as usize,
                ),
        decreases names@.len() - x,
    {
        if with_random || names[x] != random {
            let ghost before = order@;
            let mut at: usize = order.len();
            while at > 0 && gt(ratings[x], ratings[order[at - 1]])
                invariant
                    0 <= at <= order@.len(),
                    order@ == before,
                    x < names@.len(),
                    ratings@.len() == names@.len(),
                    forall|i: int| 0 <= i < order@.len() ==> (#[trigger] order@[i]) < x,
                    forall|i: int|
                        at <= i < before.len() ==> greater(
                            ratings@[x as int],
                            ratings@[#[trigger] before[i] as int],
                        ),
                decreases at,
            {
                at -= 1;
            }
            proof {
                assert forall|i: int| 0 <= i < at implies !greater(
                    ratings@[x as int],
                    ratings@[#[trigger] before[i] as int],
                ) by {
                    assert(!is_nan(ratings@[x as int]));
                    assert(!is_nan(ratings@[before[i] as int]));
                    assert(!is_nan(ratings@[before[at - 1] as int]));
                    if i < at - 1 {
                        assert(ranks_before(ratings@, before[i], before[at - 1]));
                    }
                }
            }
            order.insert(at, x);
            proof {
                let now = before.insert(at as int, x);
                assert(order@ =~= now);
                assert forall|i: int, j: int| 0 <= i < j < now.len() implies ranks_before(
                    ratings@,
                    #[trigger] now[i],
                    #[trigger] now[j],
                ) by {
                    let oi = if i < at {
                        i
                    } else {
                        i - 1
                    };
                    let oj = if j < at {
                        j
                    } else {
                        j - 1
                    };
                    if i == at {
                        assert(greater(ratings@[x as int], ratings@[before[oj] as int]));
                    } else if j == at {
                        assert(!greater(ratings@[x as int], ratings@[before[oi] as int]));
                        assert(before[oi] < x);
                    } else {
                        assert(ranks_before(ratings@, before[oi], before[oj]));
                    }
                }
                assert forall|i: int| 0 <= i < now.len() implies (#[trigger] now[i]) < x + 1
                    && is_ranked(names@, with_random, now[i] as int) by {
                    if i < at {
                        assert(now[i] == before[i]);
                    } else if i > at {
                        assert(now[i] == before[i - 1]);
                    }
                }
                assert forall|y: int|
                    0 <= y < x + 1 && #[trigger] is_ranked(
                        names@,
                        with_random,
                        y,
                    ) implies now.contains(y as usize) by {
                    if y < x {
                        let k = choose|k: int| 0 <= k < before.len() && before[k] == y as usize;
                        if k < at {
                            assert(now[k] == y as usize);
                        } else {
                            assert(now[k + 1] == y as usize);
                        }
                    } else {
                        assert(now[at as int] == y as usize);
                    }
                }
            }
        } else {
            assert(!is_ranked(names@, with_random, x as int));
        }
        x += 1;
    }
    order
}

/// A ranking is what the names and ratings make it: there is only one.
pub proof fn ranking_is_unique(
    names: Seq<String>,
    ratings: Seq<Real>,
    with_random: bool,
    x: Seq<usize>,
    y: Seq<usize>,
)
    requires
        names.len() <= usize::MAX,
        is_ranking(names, ratings, with_random, x),
        is_ranking(names, ratings, with_random, y),
    ensures
        x == y,
{
    assert(x.to_set() =~= y.to_set()) by {
        assert forall|v: usize| x.to_set().contains(v) == y.to_set().contains(v) by {
            if x.contains(v) {
                let k = choose|k: int| 0 <= k < x.len() && x[k] == v;
                assert(is_ranked(names, with_random, x[k] as int));
            }
            if y.contains(v) {
                let k = choose|k: int| 0 <= k < y.len() && y[k] == v;
                assert(is_ranked(names, with_random, y[k] as int));
            }
        }
    }
    lemma_sorted_no_duplicates(ratings, x);
    lemma_sorted_no_duplicates(ratings, y);
    lemma_same_order(ratings, x, y);
}

proof fn lemma_sorted_no_duplicates(ratings: Seq<Real>, x: Seq<usize>)
    requires
        forall|i: int, j: int|
            0 <= i < j < x.len() ==> ranks_before(ratings, #[trigger] x[i], #[trigger] x[j]),
    ensures
        x.no_duplicates(),
{
    assert forall|i: int, j: int| 0 <= i < x.len() && 0 <= j < x.len() && i != j implies x[i]
        != x[j] by {
        if i < j {
            assert(ranks_before(ratings, x[i], x[j]));
        } else {
            assert(ranks_before(ratings, x[j], x[i]));
        }
    }
}

proof fn lemma_same_order(ratings: Seq<Real>, x: Seq<usize>, y: Seq<usize>)
    requires
        x.no_duplicates(),
        y.no_duplicates(),
        x.to_set() == y.to_set(),
        forall|i: int, j: int|
            0 <= i < j < x.len() ==> ranks_before(ratings, #[trigger] x[i], #[trigger] x[j]),
        forall|i: int, j: int|
            0 <= i < j < y.len() ==> ranks_before(ratings, #[trigger] y[i], #[trigger] y[j]),
    ensures
        x == y,
    decreases x.len(),
{
    if x.len() == 0 {
        if y.len() > 0 {
            assert(y.to_set().contains(y[0]));
            assert(x.contains(y[0]));
        }
        assert(x =~= y);
    } else {
        assert(x.to_set().contains(x[0]));
        assert(y.contains(x[0]));
        let a = choose|a: int| 0 <= a < y.len() && y[a] == x[0];
        assert(y.to_set().contains(y[0]));
        assert(x.contains(y[0]));
        let b = choose|b: int| 0 <= b < x.len() && x[b] == y[0];
        if a > 0 && b > 0 {
            assert(ranks_before(ratings, y[0], y[a]));
            assert(ranks_before(ratings, x[0], x[b]));
        }
        assert(x[0] == y[0]);
        let xs = x.skip(1);
        let ys = y.skip(1);
        assert forall|v: usize| xs.to_set().contains(v) == ys.to_set().contains(v) by {
            if xs.contains(v) {
                let k = choose|k: int| 0 <= k < xs.len() && xs[k] == v;
                assert(x[k + 1] == v);
                assert(x.to_set().contains(v));
                assert(y.contains(v));
                let l = choose|l: int| 0 <= l < y.len() && y[l] == v;
                assert(l != 0);
                assert(ys[l - 1] == v);
            }
            if ys.contains(v) {
                let k = choose|k: int| 0 <= k < ys.len() && ys[k] == v;
                assert(y[k + 1] == v);
                assert(y.to_set().contains(v));
                assert(x.contains(v));
                let l = choose|l: int| 0 <= l < x.len() && x[l] == v;
                assert(l != 0);
                assert(xs[l - 1] == v);
            }
        }
        assert(xs.to_set() =~= ys.to_set());
        assert forall|i: int, j: int| 0 <= i < j < xs.len() implies ranks_before(
            ratings,
            #[trigger] xs[i],
            #[trigger] xs[j],
        ) by {
            assert(ranks_before(ratings, x[i + 1], x[j + 1]));
        }
        assert forall|i: int, j: int| 0 <= i < j < ys.len() implies ranks_before(
            ratings,
            #[trigger] ys[i],
            #[trigger] ys[j],
        ) by {
            assert(ranks_before(ratings, y[i + 1], y[j + 1]));
        }
        lemma_same_order(ratings, xs, ys);
        assert(x =~= y) by {
            assert forall|i: int| 0 <= i < x.len() implies x[i] == y[i] by {
                if i > 0 {
                    assert(xs[i - 1] == ys[i - 1]);
                }
            }
        }
    }
}

/// No distance of one of the ratings from a mark below another is without a place in the order.
pub open spec fn distances_ok<S: RatingScale>(ratings: Seq<Real>, scale: S) -> bool {
    forall|i: int, j: int, mark: usize, marks: usize, d: Real|
        0 <= i < ratings.len() && 0 <= j < ratings.len() && #[trigger] call_ensures(
            S::distance,
            (&scale, ratings[i], ratings[j], mark, marks),
            d,
        ) ==> !is_nan(d)
}

/// `b` is the first place of the smallest number.
pub open spec fn is_first_low(ds: Seq<Real>, b: int) -> bool {
    &&& 0 <= b < ds.len()
    &&& forall|j: int| 0 <= j < ds.len() ==> !greater(ds[b], #[trigger] ds[j])
    &&& forall|j: int| 0 <= j < b ==> greater(#[trigger] ds[j], ds[b])
}

/// The numbers are the distances of the players from a mark.
pub open spec fn are_distances<S: RatingScale>(
    pool: Seq<usize>,
    ratings: Seq<Real>,
    ceiling: Real,
    mark: usize,
    marks: usize,
    scale: S,
    ds: Seq<Real>,
) -> bool {
    &&& ds.len() == pool.len()
    &&& forall|j: int|
        0 <= j < pool.len() ==> call_ensures(
            S::distance,
            (&scale, ratings[pool[j] as int], ceiling, mark, marks),
            #[trigger] ds[j],
        )
}

/// The player at place `b` of the pool is the first of those nearest to a mark below the
/// ceiling.
pub open spec fn is_nearest<S: RatingScale>(
    pool: Seq<usize>,
    ratings: Seq<Real>,
    ceiling: Real,
    mark: usize,
    marks: usize,
    scale: S,
    b: int,
) -> bool {
    exists|ds: Seq<Real>| #[trigger]
        are_distances(pool, ratings, ceiling, mark, marks, scale, ds) && is_first_low(ds, b)
}

/// The `i`-th player picked is the nearest that is left to its mark, and leaves the pool.
pub open spec fn picks_at<S: RatingScale>(
    pools: Seq<Seq<usize>>,
    chosen: Seq<usize>,
    i: int,
    ratings: Seq<Real>,
    ceiling: Real,
    marks: usize,
    scale: S,
) -> bool {
    exists|b: int| #[trigger]
        is_nearest(pools[i], ratings, ceiling, i as usize, marks, scale, b) && chosen[i]
            == pools[i][b] && pools[i + 1] == pools[i].remove(b)
}

/// The chosen players cover the way down from the ceiling at even marks.
pub open spec fn picks<S: RatingScale>(
    below: Seq<usize>,
    chosen: Seq<usize>,
    ratings: Seq<Real>,
    ceiling: Real,
    scale: S,
) -> bool {
    exists|pools: Seq<Seq<usize>>|
        {
            &&& #[trigger] pools.len() == chosen.len() + 1
            &&& pools[0] == below
            &&& forall|i: int|
                0 <= i < chosen.len() ==> #[trigger] picks_at(
                    pools,
                    chosen,
                    i,
                    ratings,
                    ceiling,
                    chosen.len() as usize,
                    scale,
                )
        }
}

/// After the chosen players, the choice of `k` players below the ceiling comes to a mark from
/// which the distance `d` of the player at place `j`, who is not the only one left, has no place
/// in the order.
pub open spec fn stumbles_at<S: RatingScale>(
    pools: Seq<Seq<usize>>,
    chosen: Seq<usize>,
    j: int,
    d: Real,
    below: Seq<usize>,
    k: usize,
    ratings: Seq<Real>,
    ceiling: Real,
    scale: S,
) -> bool {
    let left = pools[chosen.len() as int];
    &&& pools.len() == chosen.len() + 1
    &&& chosen.len() < k
    &&& pools[0] == below
    &&& forall|i: int|
        0 <= i < chosen.len() ==> #[trigger] picks_at(
            pools,
            chosen,
            i,
            ratings,
            ceiling,
            k,
            scale,
        )
    &&& left.len() > 1
    &&& 0 <= j < left.len()
    &&& call_ensures(
        S::distance,
        (&scale, ratings[left[j] as int], ceiling, chosen.len() as usize, k),
        d,
    )
    &&& is_nan(d)
}

/// The choice of `k` players below the ceiling comes to a distance without a place in the order.
pub open spec fn stumbles<S: RatingScale>(
    below: Seq<usize>,
    k: int,
    ratings: Seq<Real>,
    ceiling: Real,
    scale: S,
) -> bool {
    exists|pools: Seq<Seq<usize>>, chosen: Seq<usize>, j: int, d: Real| #[trigger]
        stumbles_at(pools, chosen, j, d, below, k as usize, ratings, ceiling, scale)
}

/// Picks the players that best cover the way down from the ceiling at `k` even marks; `None`
/// when a distance has no place in the order.
fn pick_anchors<S: RatingScale>(
    below: Vec<usize>,
    ratings: &Vec<Real>,
    ceiling: Real,
    k: usize,
    scale: &S,
) -> (out: Option<Vec<usize>>)
    requires
        k <= below@.len(),
        forall|j: int| 0 <= j < below@.len() ==> (#[trigger] below@[j]) < ratings@.len(),
    ensures
        match out {
            Some(chosen) => {
                &&& chosen@.len() == k
                &&& picks(below@, chosen@, ratings@, ceiling, *scale)
                &&& forall|j: int| 0 <= j < k ==> below@.contains(#[trigger] chosen@[j])
            },
            None => stumbles(below@, k as int, ratings@, ceiling, *scale),
        },
{
    let ghost start = below@;
    let mut pool = below;
    let mut chosen: Vec<usize> = Vec::new();
    let ghost mut pools: Seq<Seq<usize>> = seq![pool@];
    let mut i: usize = 0;
    while i < k
        invariant
            0 <= i <= k,
            start == below@,
            k <= start.len(),
            pool@.len() == start.len() - i,
            forall|j: int|
                0 <= j < pool@.len() ==> (#[trigger] pool@[j]) < ratings@.len() && start.contains(
                    pool@[j],
                ),
            chosen@.len() == i,
            forall|j: int| 0 <= j < i ==> start.contains(#[trigger] chosen@[j]),
            pools.len() == i + 1,
            pools[0] == start,
            pools[i as int] == pool@,
            forall|j: int|
                0 <= j < i ==> #[trigger] picks_at(
                    pools,
                    chosen@,
                    j,
                    ratings@,
                    ceiling,
                    k,
                    *scale,
                ),
        decreases k - i,
    {
        let ghost before = (pool@, chosen@, pools);
        let mut best: usize = 0;
        let first = scale.distance(ratings[pool[0]], ceiling, i, k);
        if pool.len() > 1 && nan(first) {
            assert(stumbles_at(
                pools,
                chosen@,
                0,
                first,
                start,
                k as int as usize,
                ratings@,
                ceiling,
                *scale,
            ));
            return None;
        }
        let mut low: Real = first;
        let ghost mut ds: Seq<Real> = seq![first];
        let mut j: usize = 1;
        while j < pool.len()
            invariant
                1 <= j <= pool@.len(),
                i < k,
                start == below@,
                pool@ == before.0,
                pools == before.2,
                chosen@ == before.1,
                pools.len() == i + 1,
                chosen@.len() == i,
                pools[0] == start,
                pools[i as int] == pool@,
                forall|l: int|
                    0 <= l < i ==> #[trigger] picks_at(
                        pools,
                        chosen@,
                        l,
                        ratings@,
                        ceiling,
                        k,
                        *scale,
                    ),
                forall|l: int| 0 <= l < pool@.len() ==> (#[trigger] pool@[l]) < ratings@.len(),
                ds.len() == j,
                forall|l: int|
                    0 <= l < j ==> call_ensures(
                        S::distance,
                        (scale, ratings@[pool@[l] as int], ceiling, i, k),
                        #[trigger] ds[l],
                    ),
                pool@.len() > 1 ==> forall|l: int| 0 <= l < j ==> !is_nan(#[trigger] ds[l]),
                best < j,
                low == ds[best as int],
                is_first_low(ds, best as int),
            decreases pool@.len() - j,
        {
            let d = scale.distance(ratings[pool[j]], ceiling, i, k);
            if nan(d) {
                assert(stumbles_at(
                    pools,
                    chosen@,
                    j as int,
                    d,
                    start,
                    k as int as usize,
                    ratings@,
                    ceiling,
                    *scale,
                ));
                return None;
            }
            let ghost earlier = ds;
            proof {
                ds = ds.push(d);
                assert forall|l: int| 0 <= l < j + 1 implies call_ensures(
                    S::distance,
                    (scale, ratings@[pool@[l] as int], ceiling, i, k),
                    #[trigger] ds[l],
                ) && !is_nan(ds[l]) by {
                    if l < j {
                        assert(ds[l] == earlier[l]);
                    }
                }
            }
            if gt(low, d) {
                low = d;
                proof {
                    assert forall|l: int| 0 <= l < ds.len() implies !greater(
                        d,
                        #[trigger] ds[l],
                    ) by {
                        if l < j {
                            assert(ds[l] == earlier[l]);
                            assert(!greater(earlier[best as int], earlier[l]));
                        }
                    }
                    assert forall|l: int| 0 <= l < j implies greater(#[trigger] ds[l], d) by {
                        assert(ds[l] == earlier[l]);
                        assert(!greater(earlier[best as int], earlier[l]));
                    }
                }
                best = j;
            } else {
                proof {
                    assert(ds[best as int] == earlier[best as int]);
                    assert forall|l: int| 0 <= l < ds.len() implies !greater(
                        ds[best as int],
                        #[trigger] ds[l],
                    ) by {
                        if l < j {
                            assert(ds[l] == earlier[l]);
                        }
                    }
                    assert forall|l: int| 0 <= l < best implies greater(
                        #[trigger] ds[l],
                        ds[best as int],
                    ) by {
                        assert(ds[l] == earlier[l]);
                    }
                }
            }
            j += 1;
        }
        let x = pool.remove(best);
        chosen.push(x);
        proof {
            assert(are_distances(before.0, ratings@, ceiling, i, k, *scale, ds));
            assert(is_nearest(before.0, ratings@, ceiling, i, k, *scale, best as int));
            assert(pool@ =~= before.0.remove(best as int));
            pools = pools.push(pool@);
            assert forall|l: int| 0 <= l < i + 1 implies #[trigger] picks_at(
                pools,
                chosen@,
                l,
                ratings@,
                ceiling,
                k,
                *scale,
            ) by {
                if l < i {
                    assert(picks_at(before.2, before.1, l, ratings@, ceiling, k, *scale));
                    assert(pools[l] == before.2[l] && pools[l + 1] == before.2[l + 1]);
                    assert(chosen@[l] == before.1[l]);
                } else {
                    let mark = l as usize;
                    assert(mark == i);
                    assert(is_nearest(pools[l], ratings@, ceiling, mark, k, *scale, best as int));
                }
            }
            assert forall|l: int| 0 <= l < pool@.len() implies (#[trigger] pool@[l])
                < ratings@.len() && start.contains(pool@[l]) by {
                if l < best {
                    assert(pool@[l] == before.0[l]);
                } else {
                    assert(pool@[l] == before.0[l + 1]);
                }
            }
            assert forall|l: int| 0 <= l < i + 1 implies start.contains(#[trigger] chosen@[l]) by {
                if l < i {
                    assert(chosen@[l] == before.1[l]);
                } else {
                    assert(chosen@[l] == before.0[best as int]);
                }
            }
        }
        i += 1;
    }
    assert(pools.len() == chosen@.len() + 1);
    Some(chosen)
}

/// How many players are at the top.
pub open spec fn top_count(order: Seq<usize>, n_top: int) -> int {
    if n_top < order.len() {
        n_top
    } else {
        order.len() as int
    }
}

/// The rating that the anchors are spread below: that of the last of the top players, or the
/// highest of all when there is no top.
pub open spec fn ceiling_of(order: Seq<usize>, ratings: Seq<Real>, n_top: int) -> Real {
    let t = top_count(order, n_top);
    if t > 0 {
        ratings[order[t - 1] as int]
    } else {
        ratings[order[0] as int]
    }
}

/// The names of the players at the given places.
pub open spec fn names_at(names: Seq<String>, at: Seq<usize>) -> Seq<Seq<char>> {
    Seq::new(at.len(), |i: int| names[at[i] as int]@)
}

/// How many anchors are picked.
pub open spec fn anchor_count(order: Seq<usize>, n_top: int, n_anchors: int) -> int {
    let left = order.len() - top_count(order, n_top);
    if n_anchors < left {
        n_anchors
    } else {
        left
    }
}

/// The opponents: the top players, the player that moves at random, and anchors that are
/// spread below the top.
pub open spec fn are_opponents<S: RatingScale>(
    names: Seq<String>,
    ratings: Seq<Real>,
    n_top: int,
    n_anchors: int,
    scale: S,
    order: Seq<usize>,
    chosen: Seq<usize>,
    active: Seq<Seq<char>>,
    top: Seq<Seq<char>>,
) -> bool {
    let t = top_count(order, n_top);
    &&& is_ranking(names, ratings, false, order)
    &&& top == names_at(names, order.take(t))
    &&& chosen.len() == anchor_count(order, n_top, n_anchors)
    &&& order.len() > t ==> picks(
        order.skip(t),
        chosen,
        ratings,
        ceiling_of(order, ratings, n_top),
        scale,
    )
    &&& active == top.push(random_name()) + names_at(names, chosen)
}

/// The opponents and the top that a choice by rating leads to.
pub open spec fn is_selection<S: RatingScale>(
    names: Seq<String>,
    ratings: Seq<Real>,
    n_top: int,
    n_anchors: int,
    scale: S,
    active: Seq<Seq<char>>,
    top: Seq<Seq<char>>,
) -> bool {
    exists|order: Seq<usize>, chosen: Seq<usize>| #[trigger]
        are_opponents(
            names,
            ratings,
            n_top,
            n_anchors,
            scale,
            order,
            chosen,
            active,
            top,
        )
}

/// The choice of anchors below the top stumbles over a distance without a place in the order.
pub open spec fn lacks_spread<S: RatingScale>(
    names: Seq<String>,
    ratings: Seq<Real>,
    n_top: int,
    n_anchors: int,
    scale: S,
) -> bool {
    exists|order: Seq<usize>| #[trigger]
        is_ranking(names, ratings, false, order) && order.len() > top_count(order, n_top)
            && stumbles(
            order.skip(top_count(order, n_top)),
            anchor_count(order, n_top, n_anchors),
            ratings,
            ceiling_of(order, ratings, n_top),
            scale,
        )
}

/// Chooses the opponents for a new player: the `n_top` players with the highest ratings, the
/// player that moves at random, and `n_anchors` players whose ratings are spread most evenly
/// below the top. Gives the opponents and the top.
pub fn select_anchors<S: RatingScale>(
    names: &Vec<String>,
    ratings: &Vec<Real>,
    n_top: usize,
    n_anchors: usize,
    scale: &S,
) -> (out: (Vec<String>, Vec<String>))
    requires
        ratings@.len() == names@.len(),
        ratings_ok(ratings@),
        distances_ok(ratings@, *scale),
    ensures
        is_selection(
            names@,
            ratings@,
            n_top as int,
            n_anchors as int,
            *scale,
            names_of(out.0@),
            names_of(out.1@),
        ),
{
    match try_anchors(names, ratings, n_top, n_anchors, scale) {
        Some(out) => out,
        None => {
            proof {
                lemma_distances_spread(names@, ratings@, n_top as int, n_anchors as int, *scale);
            }
            (Vec::new(), Vec::new())
        },
    }
}

proof fn lemma_distances_spread<S: RatingScale>(
    names: Seq<String>,
    ratings: Seq<Real>,
    n_top: int,
    n_anchors: int,
    scale: S,
)
    requires
        0 <= n_top,
        ratings.len() == names.len(),
        distances_ok(ratings, scale),
    ensures
        !lacks_spread(names, ratings, n_top, n_anchors, scale),
{
    if lacks_spread(names, ratings, n_top, n_anchors, scale) {
        let order = choose|order: Seq<usize>| #[trigger]
            is_ranking(names, ratings, false, order) && order.len() > top_count(order, n_top)
                && stumbles(
                order.skip(top_count(order, n_top)),
                anchor_count(order, n_top, n_anchors),
                ratings,
                ceiling_of(order, ratings, n_top),
                scale,
            );
        let t = top_count(order, n_top);
        let below = order.skip(t);
        let k = anchor_count(order, n_top, n_anchors);
        let ceiling = ceiling_of(order, ratings, n_top);
        let (pools, chosen, j, d) = choose|
            pools: Seq<Seq<usize>>,
            chosen: Seq<usize>,
            j: int,
            d: Real,
        | #[trigger]
            stumbles_at(pools, chosen, j, d, below, k as usize, ratings, ceiling, scale);
        let c: int = if t > 0 {
            order[t - 1] as int
        } else {
            order[0] as int
        };
        assert(0 <= c < names.len());
        assert(ceiling == ratings[c]);
        assert forall|i: int| 0 <= i < below.len() implies (#[trigger] below[i]) < names.len() by {
            assert(below[i] == order[t + i]);
        }
        lemma_left_in_range(
            pools,
            chosen,
            ratings,
            ceiling,
            k as usize,
            scale,
            names.len(),
            chosen.len(),
        );
        let x = pools[chosen.len() as int][j] as int;
        assert(0 <= x < ratings.len());
        assert(call_ensures(
            S::distance,
            (&scale, ratings[x], ratings[c], chosen.len() as usize, k as usize),
            d,
        ));
    }
}

/// Whoever is left in a pool was there at the start.
proof fn lemma_left_in_range<S: RatingScale>(
    pools: Seq<Seq<usize>>,
    chosen: Seq<usize>,
    ratings: Seq<Real>,
    ceiling: Real,
    marks: usize,
    scale: S,
    n: nat,
    i: nat,
)
    requires
        i <= chosen.len(),
        pools.len() == chosen.len() + 1,
        forall|j: int| 0 <= j < pools[0].len() ==> (#[trigger] pools[0][j]) < n,
        forall|j: int|
            0 <= j < chosen.len() ==> #[trigger] picks_at(
                pools,
                chosen,
                j,
                ratings,
                ceiling,
                marks,
                scale,
            ),
    ensures
        forall|j: int| 0 <= j < pools[i as int].len() ==> (#[trigger] pools[i as int][j]) < n,
    decreases i,
{
    if i > 0 {
        let before = pools[i - 1];
        lemma_left_in_range(
            pools,
            chosen,
            ratings,
            ceiling,
            marks,
            scale,
            n,
            (i - 1) as nat,
        );
        assert(picks_at(pools, chosen, i - 1, ratings, ceiling, marks, scale));
        let b = choose|b: int| #[trigger]
            is_nearest(before, ratings, ceiling, (i - 1) as usize, marks, scale, b) && chosen[i
                - 1] == before[b] && pools[i as int] == before.remove(b);
        assert forall|j: int| 0 <= j < pools[i as int].len() implies (
        #[trigger] pools[i as int][j]) < n by {
            if j < b {
                assert(pools[i as int][j] == before[j]);
            } else {
                assert(pools[i as int][j] == before[j + 1]);
            }
        }
    }
}

/// Chooses the opponents for a new player and the top; `None` when a distance has no place in
/// the order.
pub(crate) fn try_anchors<S: RatingScale>(
    names: &Vec<String>,
    ratings: &Vec<Real>,
    n_top: usize,
    n_anchors: usize,
    scale: &S,
) -> (out: Option<(Vec<String>, Vec<String>)>)
    requires
        ratings@.len() == names@.len(),
        ratings_ok(ratings@),
    ensures
        match out {
            Some(out) => is_selection(
                names@,
                ratings@,
                n_top as int,
                n_anchors as int,
                *scale,
                names_of(out.0@),
                names_of(out.1@),
            ),
            None => lacks_spread(names@, ratings@, n_top as int, n_anchors as int, *scale),
        },
{
    let order = rank_players(names, ratings, false);
    proof {
        lemma_sorted_no_duplicates(ratings@, order@);
        lemma_bounded_len(order@, names@.len());
    }
    let t: usize = if n_top < order.len() {
        n_top
    } else {
        order.len()
    };
    let mut top: Vec<String> = Vec::new();
    let mut active: Vec<String> = Vec::new();
    let mut i: usize = 0;
    while i < t
        invariant
            0 <= i <= t <= order@.len(),
            is_ranking(names@, ratings@, false, order@),
            names_of(top@) == names_at(names@, order@.take(i as int)),
            names_of(active@) == names_at(names@, order@.take(i as int)),
        decreases t - i,
    {
        let x: usize = order[i];
        assert(order@[i as int] < names@.len());
        top.push(names[x].clone());
        active.push(names[x].clone());
        proof {
            let now = names_at(names@, order@.take(i + 1));
            assert(now =~= names_at(names@, order@.take(i as int)).push(names@[x as int]@));
            assert(names_of(top@) =~= now);
            assert(names_of(active@) =~= now);
        }
        i += 1;
    }
    let ghost tops = names_of(top@);
    active.push(random_player());
    assert(names_of(active@) =~= tops.push(random_name()));
    let mut below: Vec<usize> = Vec::new();
    let mut j: usize = t;
    while j < order.len()
        invariant
            t <= j <= order@.len(),
            below@ == order@.subrange(t as int, j as int),
        decreases order@.len() - j,
    {
        below.push(order[j]);
        assert(below@ =~= order@.subrange(t as int, j + 1));
        j += 1;
    }
    assert(below@ =~= order@.skip(t as int));
    if below.len() == 0 {
        proof {
            let none: Seq<usize> = Seq::empty();
            assert(names_of(active@) =~= tops.push(random_name()) + names_at(names@, none));
            assert(are_opponents(
                names@,
                ratings@,
                n_top as int,
                n_anchors as int,
                *scale,
                order@,
                none,
                names_of(active@),
                names_of(top@),
            ));
        }
        return Some((active, top));
    }
    proof {
        assert forall|l: int| 0 <= l < below@.len() implies (#[trigger] below@[l])
            < ratings@.len() by {
            assert(below@[l] == order@[t + l]);
        }
        if t > 0 {
            assert(order@[t - 1] < names@.len());
        } else {
            assert(order@[0] < names@.len());
        }
    }
    let ceiling: Real = if t > 0 {
        ratings[order[t - 1]]
    } else {
        ratings[order[0]]
    };
    let k: usize = if n_anchors < below.len() {
        n_anchors
    } else {
        below.len()
    };
    let ghost rest = below@;
    let chosen = match pick_anchors(below, ratings, ceiling, k, scale) {
        Some(chosen) => chosen,
        None => {
            proof {
                assert(is_ranking(names@, ratings@, false, order@));
                assert(t == top_count(order@, n_top as int));
                assert(k == anchor_count(order@, n_top as int, n_anchors as int));
                assert(ceiling == ceiling_of(order@, ratings@, n_top as int));
            }
            return None;
        },
    };
    let ghost base = names_of(active@);
    let mut c: usize = 0;
    assert(names_of(active@) =~= base + names_at(names@, chosen@.take(0)));
    while c < chosen.len()
        invariant
            0 <= c <= chosen@.len(),
            ratings@.len() == names@.len(),
            forall|l: int| 0 <= l < rest.len() ==> (#[trigger] rest[l]) < ratings@.len(),
            forall|l: int| 0 <= l < chosen@.len() ==> rest.contains(#[trigger] chosen@[l]),
            names_of(active@) == base + names_at(names@, chosen@.take(c as int)),
        decreases chosen@.len() - c,
    {
        let x: usize = chosen[c];
        proof {
            assert(rest.contains(chosen@[c as int]));
            let l = choose|l: int| 0 <= l < rest.len() && rest[l] == x;
            assert(rest[l] < ratings@.len());
        }
        let ghost before = names_of(active@);
        active.push(names[x].clone());
        proof {
            assert(names_of(active@) =~= before.push(names@[x as int]@));
            assert(names_at(names@, chosen@.take(c + 1)) =~= names_at(
                names@,
                chosen@.take(c as int),
            ).push(names@[x as int]@));
            assert(names_of(active@) =~= base + names_at(names@, chosen@.take(c + 1)));
        }
        c += 1;
    }
    proof {
        assert(chosen@.take(c as int) =~= chosen@);
        assert(are_opponents(
            names@,
            ratings@,
            n_top as int,
            n_anchors as int,
            *scale,
            order@,
            chosen@,
            names_of(active@),
            names_of(top@),
        ));
    }
    Some((active, top))
}

proof fn lemma_bounded_len(x: Seq<usize>, n: nat)
    requires
        x.no_duplicates(),
        forall|i: int| 0 <= i < x.len() ==> (#[trigger] x[i]) < n,
    ensures
        x.len() <= n,
{
    x.unique_seq_to_set();
    let all = Set::<usize>::new(|v: usize| v < n);
    lemma_usize_set(n);
    assert(x.to_set().subset_of(all));
    vstd::set_lib::lemma_len_subset(x.to_set(), all);
}

proof fn lemma_usize_set(n: nat)
    ensures
        Set::<usize>::new(|v: usize| v < n).finite(),
        Set::<usize>::new(|v: usize| v < n).len() <= n,
    decreases n,
{
    let all = Set::<usize>::new(|v: usize| v < n);
    if n == 0 {
        assert(all =~= Set::empty());
    } else {
        lemma_usize_set((n - 1) as nat);
        let rest = Set::<usize>::new(|v: usize| v < n - 1);
        assert(rest =~= Set::<usize>::new(|v: usize| v < (n - 1) as nat));
        if n - 1 <= usize::MAX {
            assert(all =~= rest.insert((n - 1) as usize));
        } else {
            assert(all =~= rest);
        }
    }
}

proof fn lemma_pools<S: RatingScale>(
    pools: Seq<Seq<usize>>,
    chosen: Seq<usize>,
    ratings: Seq<Real>,
    ceiling: Real,
    scale: S,
    i: int,
)
    requires
        pools.len() == chosen.len() + 1,
        pools[0].no_duplicates(),
        0 <= i <= chosen.len(),
        forall|j: int|
            0 <= j < chosen.len() ==> #[trigger] picks_at(
                pools,
                chosen,
                j,
                ratings,
                ceiling,
                chosen.len() as usize,
                scale,
            ),
    ensures
        pools[i].no_duplicates(),
        forall|v: usize| #[trigger] pools[i].contains(v) ==> pools[0].contains(v),
        forall|j: int|
            0 <= j < i ==> pools[0].contains(#[trigger] chosen[j]) && !pools[i].contains(chosen[j]),
        forall|j: int, k: int|
            0 <= j < i && 0 <= k < i && j != k ==> #[trigger] chosen[j] != #[trigger] chosen[k],
    decreases i,
{
    if i > 0 {
        lemma_pools(pools, chosen, ratings, ceiling, scale, i - 1);
        let marks = chosen.len() as usize;
        assert(picks_at(pools, chosen, i - 1, ratings, ceiling, marks, scale));
        let before = pools[i - 1];
        let b = choose|b: int| #[trigger]
            is_nearest(before, ratings, ceiling, (i - 1) as usize, marks, scale, b) && chosen[i - 1]
                == before[b] && pools[i] == before.remove(b);
        let after = pools[i];
        assert forall|x: int, y: int| 0 <= x < after.len() && 0 <= y < after.len() && x
            != y implies after[x] != after[y] by {
            let ox = if x < b {
                x
            } else {
                x + 1
            };
            let oy = if y < b {
                y
            } else {
                y + 1
            };
            assert(after[x] == before[ox] && after[y] == before[oy]);
        }
        assert forall|v: usize| #[trigger] after.contains(v) implies before.contains(v) && v
            != before[b] by {
            let x = choose|x: int| 0 <= x < after.len() && after[x] == v;
            let ox = if x < b {
                x
            } else {
                x + 1
            };
            assert(before[ox] == v);
        }
        assert(before.contains(before[b]));
    }
}

/// A player is chosen at most once, and the player that moves at random always is.
pub proof fn opponents_are_distinct<S: RatingScale>(
    names: Seq<String>,
    ratings: Seq<Real>,
    n_top: int,
    n_anchors: int,
    scale: S,
    active: Seq<Seq<char>>,
    top: Seq<Seq<char>>,
)
    requires
        distinct(names),
        0 <= n_top,
        0 <= n_anchors,
        is_selection(names, ratings, n_top, n_anchors, scale, active, top),
    ensures
        active.no_duplicates(),
        active.contains(random_name()),
        top.len() <= n_top,
        active.len() <= n_top + n_anchors + 1,
{
    let (order, chosen) = choose|order: Seq<usize>, chosen: Seq<usize>| #[trigger]
        are_opponents(
            names,
            ratings,
            n_top,
            n_anchors,
            scale,
            order,
            chosen,
            active,
            top,
        );
    let t = top_count(order, n_top);
    lemma_sorted_no_duplicates(ratings, order);
    let below = order.skip(t);
    assert(active[t] == random_name());
    if order.len() > t {
        let ceiling = ceiling_of(order, ratings, n_top);
        let pools = choose|pools: Seq<Seq<usize>>|
            {
                &&& #[trigger] pools.len() == chosen.len() + 1
                &&& pools[0] == below
                &&& forall|i: int|
                    0 <= i < chosen.len() ==> #[trigger] picks_at(
                        pools,
                        chosen,
                        i,
                        ratings,
                        ceiling,
                        chosen.len() as usize,
                        scale,
                    )
            };
        lemma_pools(pools, chosen, ratings, ceiling, scale, chosen.len() as int);
    }
    // Where in the names each opponent stands, or nowhere for the player that moves at random.
    let source = |i: int|
        if i < t {
            order[i] as int
        } else if i == t {
            -1int
        } else {
            chosen[i - t - 1] as int
        };
    assert forall|i: int| 0 <= i < active.len() && i != t implies {
        let x = #[trigger] source(i);
        0 <= x < names.len() && active[i] == names[x]@ && names[x]@ != random_name()
    } by {
        if i < t {
            assert(is_ranked(names, false, order[i] as int));
        } else {
            let c = chosen[i - t - 1];
            assert(below.contains(c));
            let l = choose|l: int| 0 <= l < below.len() && below[l] == c;
            assert(order[t + l] == c);
            assert(is_ranked(names, false, order[t + l] as int));
        }
    }
    assert forall|i: int, j: int| 0 <= i < active.len() && 0 <= j < active.len() && i
        != j implies active[i] != active[j] by {
        if i != t && j != t {
            let x = source(i);
            let y = source(j);
            if active[i] == active[j] {
                assert(names[x]@ == names[y]@);
                assert(x == y);
                if i < t && j > t {
                    let c = chosen[j - t - 1];
                    assert(below.contains(c));
                    let l = choose|l: int| 0 <= l < below.len() && below[l] == c;
                    assert(order[t + l] == order[i]);
                } else if j < t && i > t {
                    let c = chosen[i - t - 1];
                    assert(below.contains(c));
                    let l = choose|l: int| 0 <= l < below.len() && below[l] == c;
                    assert(order[t + l] == order[j]);
                } else if i > t && j > t {
                    assert(chosen[i - t - 1] == chosen[j - t - 1]);
                }
            }
        } else {
            assert(source(i) == source(i) && source(j) == source(j));
        }
    }
}

/// A ranking goes from the highest rating down, with the earlier place first among equals, and
/// names every player that is to be ranked once.
pub proof fn rankings_descend(
    names: Seq<String>,
    ratings: Seq<Real>,
    with_random: bool,
    order: Seq<usize>,
)
    requires
        is_ranking(names, ratings, with_random, order),
    ensures
        forall|i: int, j: int|
            0 <= i < j < order.len() ==> !greater(
                ratings[#[trigger] order[j] as int],
                ratings[#[trigger] order[i] as int],
            ),
        forall|i: int, j: int|
            0 <= i < j < order.len() && !greater(
                ratings[#[trigger] order[i] as int],
                ratings[#[trigger] order[j] as int],
            ) ==> order[i] < order[j],
        order.no_duplicates(),
        forall|x: usize|
            #[trigger] order.contains(x) <==> x < names.len() && (with_random
                || names[x as int]@ != "random"@),
{
    lemma_sorted_no_duplicates(ratings, order);
    assert forall|i: int, j: int| 0 <= i < j < order.len() implies !greater(
        ratings[#[trigger] order[j] as int],
        ratings[#[trigger] order[i] as int],
    ) && (!greater(ratings[order[i] as int], ratings[order[j] as int]) ==> order[i] < order[j]) by {
        assert(ranks_before(ratings, order[i], order[j]));
    }
    assert forall|x: usize| #[trigger] order.contains(x) implies x < names.len() && (with_random
        || names[x as int]@ != "random"@) by {
        let i = choose|i: int| 0 <= i < order.len() && order[i] == x;
        assert(is_ranked(names, with_random, order[i] as int));
    }
    assert forall|x: usize| x < names.len() && (with_random || names[x as int]@
        != "random"@) implies #[trigger] order.contains(x) by {
        assert(is_ranked(names, with_random, x as int));
    }
}

/// Whoever was there at the start and was not picked is left.
proof fn lemma_left_over<S: RatingScale>(
    pools: Seq<Seq<usize>>,
    chosen: Seq<usize>,
    ratings: Seq<Real>,
    ceiling: Real,
    scale: S,
    i: int,
    x: usize,
)
    requires
        pools.len() == chosen.len() + 1,
        0 <= i <= chosen.len(),
        forall|j: int|
            0 <= j < chosen.len() ==> #[trigger] picks_at(
                pools,
                chosen,
                j,
                ratings,
                ceiling,
                chosen.len() as usize,
                scale,
            ),
        pools[0].contains(x),
        forall|j: int| 0 <= j < i ==> #[trigger] chosen[j] != x,
    ensures
        pools[i].contains(x),
    decreases i,
{
    if i > 0 {
        lemma_left_over(pools, chosen, ratings, ceiling, scale, i - 1, x);
        let marks = chosen.len() as usize;
        assert(picks_at(pools, chosen, i - 1, ratings, ceiling, marks, scale));
        let before = pools[i - 1];
        let b = choose|b: int| #[trigger]
            is_nearest(before, ratings, ceiling, (i - 1) as usize, marks, scale, b) && chosen[i - 1]
                == before[b] && pools[i] == before.remove(b);
        let l = choose|l: int| 0 <= l < before.len() && before[l] == x;
        assert(chosen[i - 1] != x);
        assert(l != b);
        assert(pools[i][if l < b {
            l
        } else {
            l - 1
        }] == x);
    }
}

/// As the scale measures it, player `x` is no farther than player `y` from the mark.
pub open spec fn no_farther<S: RatingScale>(
    ratings: Seq<Real>,
    x: usize,
    y: usize,
    ceiling: Real,
    mark: int,
    marks: int,
    scale: S,
) -> bool {
    exists|d: Real, e: Real|
        {
            &&& #[trigger] call_ensures(
                S::distance,
                (&scale, ratings[x as int], ceiling, mark as usize, marks as usize),
                d,
            )
            &&& #[trigger] call_ensures(
                S::distance,
                (&scale, ratings[y as int], ceiling, mark as usize, marks as usize),
                e,
            )
            &&& !greater(d, e)
        }
}

/// As the scale measures it, player `x` is farther than player `y` from the mark.
pub open spec fn is_farther<S: RatingScale>(
    ratings: Seq<Real>,
    x: usize,
    y: usize,
    ceiling: Real,
    mark: int,
    marks: int,
    scale: S,
) -> bool {
    exists|d: Real, e: Real|
        {
            &&& #[trigger] call_ensures(
                S::distance,
                (&scale, ratings[x as int], ceiling, mark as usize, marks as usize),
                d,
            )
            &&& #[trigger] call_ensures(
                S::distance,
                (&scale, ratings[y as int], ceiling, mark as usize, marks as usize),
                e,
            )
            &&& greater(d, e)
        }
}

/// Whoever is left stands in the order of the ranking.
proof fn lemma_pools_in_order<S: RatingScale>(
    pools: Seq<Seq<usize>>,
    chosen: Seq<usize>,
    ratings: Seq<Real>,
    ceiling: Real,
    scale: S,
    i: int,
)
    requires
        pools.len() == chosen.len() + 1,
        0 <= i <= chosen.len(),
        forall|j: int|
            0 <= j < chosen.len() ==> #[trigger] picks_at(
                pools,
                chosen,
                j,
                ratings,
                ceiling,
                chosen.len() as usize,
                scale,
            ),
        forall|k: int, l: int|
            0 <= k < l < pools[0].len() ==> ranks_before(
                ratings,
                #[trigger] pools[0][k],
                #[trigger] pools[0][l],
            ),
    ensures
        forall|k: int, l: int|
            0 <= k < l < pools[i].len() ==> ranks_before(
                ratings,
                #[trigger] pools[i][k],
                #[trigger] pools[i][l],
            ),
    decreases i,
{
    if i > 0 {
        lemma_pools_in_order(pools, chosen, ratings, ceiling, scale, i - 1);
        let marks = chosen.len() as usize;
        assert(picks_at(pools, chosen, i - 1, ratings, ceiling, marks, scale));
        let before = pools[i - 1];
        let b = choose|b: int| #[trigger]
            is_nearest(before, ratings, ceiling, (i - 1) as usize, marks, scale, b) && chosen[i - 1]
                == before[b] && pools[i] == before.remove(b);
        assert forall|k: int, l: int| 0 <= k < l < pools[i].len() implies ranks_before(
            ratings,
            #[trigger] pools[i][k],
            #[trigger] pools[i][l],
        ) by {
            let ok = if k < b {
                k
            } else {
                k + 1
            };
            let ol = if l < b {
                l
            } else {
                l + 1
            };
            assert(pools[i][k] == before[ok] && pools[i][l] == before[ol]);
        }
    }
}

/// Who is chosen to play against. `best` holds the places of the top players and `anchors` those
/// of the others, in the order of the choice. No player outside the top is rated above a player
/// of the top, which has `n_top` players unless there are fewer. The scale is asked for
/// distances below a ceiling: the lowest rating of the top, or the highest rating of all when the
/// top is empty. With `k` anchors in all, the anchor chosen for mark `i` of `k` is no farther
/// from that mark than any player that is neither in the top nor an earlier anchor, and nearer than
/// any of them that is rated higher, or as high and stands earlier. Of players with the same rating
/// the one that stands earlier goes first into the top. The player that moves at random is neither
/// in the top nor an anchor; it is named between them.
pub proof fn anchors_are_spread_below_the_top<S: RatingScale>(
    names: Seq<String>,
    ratings: Seq<Real>,
    n_top: int,
    n_anchors: int,
    scale: S,
    active: Seq<Seq<char>>,
    top: Seq<Seq<char>>,
) -> (found: (Seq<usize>, Real, Seq<usize>))
    requires
        0 <= n_top,
        0 <= n_anchors,
        ratings.len() == names.len() <= usize::MAX,
        ratings_ok(ratings),
        is_selection(names, ratings, n_top, n_anchors, scale, active, top),
    ensures
        ({
            let (best, ceiling, anchors) = found;
            let others = |x: usize|
                x < names.len() && names[x as int]@ != "random"@ && !best.contains(x);
            // The top.
            &&& best.no_duplicates()
            &&& best.len() == top.len() <= n_top
            &&& forall|i: int|
                0 <= i < best.len() ==> (#[trigger] best[i]) < names.len() && names[best[i] as int]@
                    != "random"@ && top[i] == names[best[i] as int]@
            &&& forall|i: int, x: usize|
                0 <= i < best.len() && #[trigger] others(x) ==> !greater(
                    ratings[x as int],
                    ratings[#[trigger] best[i] as int],
                )
            &&& forall|i: int, j: int|
                0 <= i < j < best.len() ==> !greater(
                    ratings[#[trigger] best[j] as int],
                    ratings[#[trigger] best[i] as int],
                )
            &&& forall|i: int, j: int|
                0 <= i < j < best.len() && !greater(
                    ratings[#[trigger] best[i] as int],
                    ratings[#[trigger] best[j] as int],
                ) ==> best[i] < best[j]
            &&& forall|i: int, x: usize|
                0 <= i < best.len() && #[trigger] others(x) && !greater(
                    ratings[#[trigger] best[i] as int],
                    ratings[x as int],
                ) ==> best[i] < x
            &&& best.len() < n_top ==> forall|x: usize| !#[trigger] others(x)
            // The ceiling.
            &&& best.len() > 0 ==> exists|i: int|
                0 <= i < best.len() && ceiling == ratings[#[trigger] best[i] as int]
            &&& forall|i: int|
                0 <= i < best.len() ==> !greater(ceiling, ratings[#[trigger] best[i] as int])
            &&& best.len() == 0 ==> forall|x: usize| #[trigger]
                others(x) ==> !greater(ratings[x as int], ceiling)
            &&& best.len() == 0 && anchors.len() > 0 ==> exists|x: usize| #[trigger]
                others(x) && ceiling == ratings[x as int]
            // The anchors.
            &&& anchors.no_duplicates()
            &&& anchors.len() <= n_anchors
            &&& forall|i: int| 0 <= i < anchors.len() ==> others(#[trigger] anchors[i])
            &&& anchors.len() < n_anchors ==> forall|x: usize| #[trigger]
                others(x) ==> anchors.contains(x)
            &&& forall|i: int, x: usize|
                0 <= i < anchors.len() && #[trigger] others(x) && !anchors.take(i).contains(x)
                    ==> no_farther(
                    ratings,
                    #[trigger] anchors[i],
                    x,
                    ceiling,
                    i,
                    anchors.len() as int,
                    scale,
                )
            &&& forall|i: int, x: usize|
                0 <= i < anchors.len() && #[trigger] others(x) && !anchors.take(i).contains(x) && (
                greater(ratings[x as int], ratings[anchors[i] as int]) || !greater(
                    ratings[anchors[i] as int],
                    ratings[x as int],
                ) && x < anchors[i]) ==> is_farther(
                    ratings,
                    x,
                    #[trigger] anchors[i],
                    ceiling,
                    i,
                    anchors.len() as int,
                    scale,
                )
            // The names.
            &&& active.len() == best.len() + 1 + anchors.len()
            &&& forall|i: int| 0 <= i < best.len() ==> #[trigger] active[i] == top[i]
            &&& active[best.len() as int] == "random"@
            &&& forall|i: int|
                0 <= i < anchors.len() ==> active[best.len() + 1 + i]
                    == names[#[trigger] anchors[i] as int]@
        }),
{
    let (order, chosen) = choose|order: Seq<usize>, chosen: Seq<usize>| #[trigger]
        are_opponents(
            names,
            ratings,
            n_top,
            n_anchors,
            scale,
            order,
            chosen,
            active,
            top,
        );
    let t = top_count(order, n_top);
    let below = order.skip(t);
    let best = order.take(t);
    let ceiling = ceiling_of(order, ratings, n_top);
    let others = |x: usize|
        x < names.len() && names[x as int]@ != "random"@ && !best.contains(x);
    rankings_descend(names, ratings, false, order);
    assert forall|i: int| 0 <= i < best.len() implies (#[trigger] best[i]) < names.len()
        && names[best[i] as int]@ != "random"@ && top[i] == names[best[i] as int]@ by {
        assert(order.contains(order[i]));
    }
    assert forall|x: usize| #[trigger] others(x) implies below.contains(x) by {
        assert(order.contains(x));
        let l = choose|l: int| 0 <= l < order.len() && order[l] == x;
        if l < t {
            assert(best[l] == x);
        }
        assert(below[l - t] == x);
    }
    assert forall|x: usize| #[trigger] below.contains(x) implies others(x) by {
        let l = choose|l: int| 0 <= l < below.len() && below[l] == x;
        assert(order[t + l] == x);
        assert(order.contains(x));
        if best.contains(x) {
            let m = choose|m: int| 0 <= m < best.len() && best[m] == x;
            assert(order[m] == order[t + l]);
        }
    }
    assert forall|i: int, x: usize| 0 <= i < best.len() && #[trigger] others(x) implies !greater(
        ratings[x as int],
        ratings[#[trigger] best[i] as int],
    ) by {
        assert(below.contains(x));
        let l = choose|l: int| 0 <= l < below.len() && below[l] == x;
        assert(order[t + l] == x);
        assert(order[i] == best[i]);
    }
    assert forall|i: int, j: int| 0 <= i < j < best.len() implies !greater(
        ratings[#[trigger] best[j] as int],
        ratings[#[trigger] best[i] as int],
    ) && (!greater(ratings[best[i] as int], ratings[best[j] as int]) ==> best[i] < best[j]) by {
        assert(best[i] == order[i] && best[j] == order[j]);
    }
    assert forall|i: int, x: usize| 0 <= i < best.len() && #[trigger] others(x) && !greater(
        ratings[#[trigger] best[i] as int],
        ratings[x as int],
    ) implies best[i] < x by {
        assert(below.contains(x));
        let l = choose|l: int| 0 <= l < below.len() && below[l] == x;
        assert(order[t + l] == x);
        assert(order[i] == best[i]);
    }
    if t > 0 {
        assert(best[t - 1] == order[t - 1]);
        assert forall|i: int| 0 <= i < best.len() implies !greater(
            ceiling,
            ratings[#[trigger] best[i] as int],
        ) by {
            assert(best[i] == order[i]);
        }
    } else {
        assert forall|x: usize| #[trigger] others(x) implies !greater(
            ratings[x as int],
            ceiling,
        ) by {
            assert(below.contains(x));
            let l = choose|l: int| 0 <= l < below.len() && below[l] == x;
            assert(order[l] == x);
            assert(order.len() > 0);
        }
        if order.len() > 0 {
            assert(below[0] == order[0]);
            assert(below.contains(order[0]));
            assert(others(order[0]));
        }
    }
    if best.len() < n_top {
        assert(below.len() == 0);
        assert forall|x: usize| !#[trigger] others(x) by {}
    }
    if order.len() > t {
        let pools = choose|pools: Seq<Seq<usize>>|
            {
                &&& #[trigger] pools.len() == chosen.len() + 1
                &&& pools[0] == below
                &&& forall|i: int|
                    0 <= i < chosen.len() ==> #[trigger] picks_at(
                        pools,
                        chosen,
                        i,
                        ratings,
                        ceiling,
                        chosen.len() as usize,
                        scale,
                    )
            };
        assert(below.no_duplicates());
        lemma_pools(pools, chosen, ratings, ceiling, scale, chosen.len() as int);
        assert forall|i: int| 0 <= i < chosen.len() implies others(#[trigger] chosen[i]) by {
            assert(below.contains(chosen[i]));
        }
        lemma_pool_sizes(pools, chosen, ratings, ceiling, scale, chosen.len() as int);
        if chosen.len() < n_anchors {
            assert(pools[chosen.len() as int].len() == 0);
            assert forall|x: usize| #[trigger] others(x) implies chosen.contains(x) by {
                if !chosen.contains(x) {
                    lemma_left_over(
                        pools,
                        chosen,
                        ratings,
                        ceiling,
                        scale,
                        chosen.len() as int,
                        x,
                    );
                }
            }
        }
        assert forall|i: int, x: usize|
            0 <= i < chosen.len() && #[trigger] others(x) && !chosen.take(i).contains(
                x,
            ) implies no_farther(
            ratings,
            #[trigger] chosen[i],
            x,
            ceiling,
            i,
            chosen.len() as int,
            scale,
        ) by {
            assert forall|j: int| 0 <= j < i implies #[trigger] chosen[j] != x by {
                assert(chosen.take(i)[j] == chosen[j]);
            }
            lemma_left_over(pools, chosen, ratings, ceiling, scale, i, x);
            let marks = chosen.len() as usize;
            assert(picks_at(pools, chosen, i, ratings, ceiling, marks, scale));
            let pool = pools[i];
            let b = choose|b: int| #[trigger]
                is_nearest(pool, ratings, ceiling, i as usize, marks, scale, b) && chosen[i]
                    == pool[b] && pools[i + 1] == pool.remove(b);
            let ds = choose|ds: Seq<Real>| #[trigger]
                are_distances(pool, ratings, ceiling, i as usize, marks, scale, ds) && is_first_low(
                    ds,
                    b,
                );
            let l = choose|l: int| 0 <= l < pool.len() && pool[l] == x;
            assert(call_ensures(
                S::distance,
                (&scale, ratings[pool[b] as int], ceiling, i as usize, marks),
                ds[b],
            ));
            assert(call_ensures(
                S::distance,
                (&scale, ratings[pool[l] as int], ceiling, i as usize, marks),
                ds[l],
            ));
            assert(!greater(ds[b], ds[l]));
        }
        assert forall|k: int, l: int| 0 <= k < l < pools[0].len() implies ranks_before(
            ratings,
            #[trigger] pools[0][k],
            #[trigger] pools[0][l],
        ) by {
            assert(ranks_before(ratings, order[t + k], order[t + l]));
        }
        assert forall|i: int, x: usize|
            0 <= i < chosen.len() && #[trigger] others(x) && !chosen.take(i).contains(x) && (
            greater(ratings[x as int], ratings[chosen[i] as int]) || !greater(
                ratings[chosen[i] as int],
                ratings[x as int],
            ) && x < chosen[i]) implies is_farther(
            ratings,
            x,
            #[trigger] chosen[i],
            ceiling,
            i,
            chosen.len() as int,
            scale,
        ) by {
            assert forall|j: int| 0 <= j < i implies #[trigger] chosen[j] != x by {
                assert(chosen.take(i)[j] == chosen[j]);
            }
            lemma_left_over(pools, chosen, ratings, ceiling, scale, i, x);
            lemma_pools_in_order(pools, chosen, ratings, ceiling, scale, i);
            let marks = chosen.len() as usize;
            assert(picks_at(pools, chosen, i, ratings, ceiling, marks, scale));
            let pool = pools[i];
            let b = choose|b: int| #[trigger]
                is_nearest(pool, ratings, ceiling, i as usize, marks, scale, b) && chosen[i]
                    == pool[b] && pools[i + 1] == pool.remove(b);
            let ds = choose|ds: Seq<Real>| #[trigger]
                are_distances(pool, ratings, ceiling, i as usize, marks, scale, ds) && is_first_low(
                    ds,
                    b,
                );
            let l = choose|l: int| 0 <= l < pool.len() && pool[l] == x;
            if b < l {
                assert(ranks_before(ratings, pool[b], pool[l]));
            }
            assert(call_ensures(
                S::distance,
                (&scale, ratings[pool[b] as int], ceiling, i as usize, marks),
                ds[b],
            ));
            assert(call_ensures(
                S::distance,
                (&scale, ratings[pool[l] as int], ceiling, i as usize, marks),
                ds[l],
            ));
            assert(greater(ds[l], ds[b]));
        }
    } else {
        assert(below.len() == 0);
        assert forall|x: usize| #[trigger] others(x) implies chosen.contains(x) by {
            assert(below.contains(x));
        }
    }
    assert(best.no_duplicates());
    assert forall|i: int| 0 <= i < best.len() implies #[trigger] active[i] == top[i] by {}
    assert forall|i: int| 0 <= i < chosen.len() implies active[best.len() + 1 + i]
        == names[#[trigger] chosen[i] as int]@ by {}
    (best, ceiling, chosen)
}

proof fn lemma_pool_sizes<S: RatingScale>(
    pools: Seq<Seq<usize>>,
    chosen: Seq<usize>,
    ratings: Seq<Real>,
    ceiling: Real,
    scale: S,
    i: int,
)
    requires
        pools.len() == chosen.len() + 1,
        0 <= i <= chosen.len(),
        forall|j: int|
            0 <= j < chosen.len() ==> #[trigger] picks_at(
                pools,
                chosen,
                j,
                ratings,
                ceiling,
                chosen.len() as usize,
                scale,
            ),
    ensures
        pools[i].len() == pools[0].len() - i,
    decreases i,
{
    if i > 0 {
        lemma_pool_sizes(pools, chosen, ratings, ceiling, scale, i - 1);
        assert(picks_at(
            pools,
            chosen,
            i - 1,
            ratings,
            ceiling,
            chosen.len() as usize,
            scale,
        ));
    }
}

/// What one more result says. It is told of the two players that it names, and of nobody else:
/// to each with the rating of the other, with the points of the player named first, and with
/// whether that is the other.
pub proof fn results_speak_of_their_players(
    games: Seq<Played>,
    p: usize,
    ratings: Seq<Real>,
    n: nat,
)
    requires
        n < games.len(),
        games[n as int].a != games[n as int].b,
    ensures
        pairings(games, p, ratings, 0).len() == 0,
        p != games[n as int].a && p != games[n as int].b ==> pairings(games, p, ratings, n + 1)
            == pairings(games, p, ratings, n),
        p == games[n as int].a || p == games[n as int].b ==> {
            let said = pairings(games, p, ratings, n + 1);
            &&& said.len() == pairings(games, p, ratings, n).len() + 1
            &&& said.drop_last() == pairings(games, p, ratings, n)
            &&& said.last().opponent == ratings[if p == games[n as int].a {
                games[n as int].b
            } else {
                games[n as int].a
            } as int]
            &&& said.last().score_a == games[n as int].score_a
            &&& said.last().flipped == (p == games[n as int].b)
            &&& said.last().n == games[n as int].n
        },
{
    let g = games[n as int];
    assert(games[(n + 1) - 1] == g);
    if p == g.a || p == g.b {
        assert(pairings(games, p, ratings, n + 1).drop_last() =~= pairings(games, p, ratings, n));
    }
}

/// A result of at least one game goes on to the places of the players that it names; any other
/// result goes nowhere.
pub proof fn results_find_their_players(names: Seq<String>, games: Seq<MatchResult>, n: nat)
    requires
        distinct(names),
        names.len() <= usize::MAX,
        results_ok(names, games),
        n < games.len(),
    ensures
        resolved(names, games, 0).len() == 0,
        games[n as int].n <= 0 ==> resolved(names, games, n + 1) == resolved(names, games, n),
        games[n as int].n > 0 ==> {
            let all = resolved(names, games, n + 1);
            &&& all.len() == resolved(names, games, n).len() + 1
            &&& all.drop_last() == resolved(names, games, n)
            &&& all.last().a < names.len()
            &&& all.last().b < names.len()
            &&& names[all.last().a as int]@ == games[n as int].a@
            &&& names[all.last().b as int]@ == games[n as int].b@
            &&& all.last().score_a == games[n as int].score_a
            &&& all.last().n == games[n as int].n
        },
{
    let g = games[n as int];
    assert(games[(n + 1) - 1] == g);
    if g.n > 0 {
        assert(is_named(names, g.a@) && is_named(names, g.b@));
        let a = place(names, g.a@);
        let b = place(names, g.b@);
        assert(stands_at(names, g.a@, a));
        assert(stands_at(names, g.b@, b));
        assert(resolved(names, games, n + 1).drop_last() =~= resolved(names, games, n));
    }
}

/// A sweep improves every player that is not pinned once, in the order of the players. What is
/// asked for player `p` is told with the ratings that the sweep has given to earlier players, and
/// with those that it found for `p` itself and later players. Pinned players stay as they are.
pub proof fn sweeps_improve_players_in_order<S: RatingScale>(
    before: Seq<Real>,
    after: Seq<Real>,
    games: Seq<Played>,
    pinned: Seq<Option<Real>>,
    scale: S,
    p: int,
) -> (asked: (Seq<Real>, Vec<Pairing>))
    requires
        sweeps(before, after, games, pinned, scale),
        0 <= p < before.len(),
        pinned.len() == before.len(),
    ensures
        after.len() == before.len(),
        pinned[p] is Some ==> after[p] == before[p],
        pinned[p] is None ==> {
            let (ratings, results) = asked;
            &&& ratings.len() == before.len()
            &&& forall|q: int| 0 <= q < p ==> #[trigger] ratings[q] == after[q]
            &&& forall|q: int| p <= q < before.len() ==> #[trigger] ratings[q] == before[q]
            &&& results@ == pairings(games, p as usize, ratings, games.len())
            &&& call_ensures(S::improve, (&scale, before[p], &results), after[p])
        },
{
    let steps = choose|steps: Seq<Seq<Real>>|
        {
            &&& #[trigger] steps.len() == before.len() + 1
            &&& steps[0] == before
            &&& steps[before.len() as int] == after
            &&& forall|p: int|
                0 <= p < before.len() ==> #[trigger] rates_at(steps, p, games, pinned, scale)
        };
    lemma_steps(steps, before, games, pinned, scale, p as nat);
    lemma_steps(steps, before, games, pinned, scale, (p + 1) as nat);
    lemma_steps_stay(steps, before, games, pinned, scale, (p + 1) as nat, before.len());
    assert(rates_at(steps, p, games, pinned, scale));
    if pinned[p] is None {
        let (results, better) = choose|results: Vec<Pairing>, better: Real| #[trigger]
            call_ensures(S::improve, (&scale, steps[p][p], &results), better) && results@
                == pairings(games, p as usize, steps[p], games.len()) && steps[p + 1]
                == steps[p].update(p, better);
        lemma_steps_stay(steps, before, games, pinned, scale, p as nat, before.len());
        assert(steps[p + 1][p] == better);
        assert(after[p] == better);
        (steps[p], results)
    } else {
        assert(steps[p + 1][p] == before[p]);
        arbitrary()
    }
}

/// Before its turn a player has the rating that the sweep found.
proof fn lemma_steps<S: RatingScale>(
    steps: Seq<Seq<Real>>,
    before: Seq<Real>,
    games: Seq<Played>,
    pinned: Seq<Option<Real>>,
    scale: S,
    n: nat,
)
    requires
        n <= before.len(),
        steps.len() == before.len() + 1,
        steps[0] == before,
        pinned.len() == before.len(),
        forall|p: int|
            0 <= p < before.len() ==> #[trigger] rates_at(steps, p, games, pinned, scale),
    ensures
        steps[n as int].len() == before.len(),
        forall|q: int| n <= q < before.len() ==> #[trigger] steps[n as int][q] == before[q],
        forall|q: int|
            0 <= q < n && pinned[q] is Some ==> #[trigger] steps[n as int][q] == before[q],
    decreases n,
{
    if n > 0 {
        lemma_steps(steps, before, games, pinned, scale, (n - 1) as nat);
        assert(rates_at(steps, n - 1, games, pinned, scale));
    }
}

/// After its turn a player keeps its rating to the end of the sweep.
proof fn lemma_steps_stay<S: RatingScale>(
    steps: Seq<Seq<Real>>,
    before: Seq<Real>,
    games: Seq<Played>,
    pinned: Seq<Option<Real>>,
    scale: S,
    n: nat,
    m: nat,
)
    requires
        n <= m <= before.len(),
        steps.len() == before.len() + 1,
        steps[0] == before,
        pinned.len() == before.len(),
        forall|p: int|
            0 <= p < before.len() ==> #[trigger] rates_at(steps, p, games, pinned, scale),
    ensures
        steps[m as int].len() == before.len(),
        forall|q: int| 0 <= q < n ==> #[trigger] steps[n as int][q] == steps[m as int][q],
    decreases m - n,
{
    lemma_steps(steps, before, games, pinned, scale, m);
    if n < m {
        lemma_steps_stay(steps, before, games, pinned, scale, n, (m - 1) as nat);
        lemma_steps(steps, before, games, pinned, scale, (m - 1) as nat);
        assert(rates_at(steps, m - 1, games, pinned, scale));
        assert forall|q: int| 0 <= q < n implies #[trigger] steps[n as int][q]
            == steps[m as int][q] by {
            assert(steps[n as int][q] == steps[m - 1][q]);
        }
    }
}

/// A fit starts with everybody at zero who is not pinned, and is as many sweeps away from there
/// as it is asked for: one sweep more leads from a fit to the next.
pub proof fn fits_sweep_as_often_as_asked<S: RatingScale>(
    ratings: Seq<Real>,
    games: Seq<Played>,
    pinned: Seq<Option<Real>>,
    iters: int,
    scale: S,
) -> (earlier: Seq<Real>)
    requires
        fits(ratings, games, pinned, iters, scale),
        0 <= iters,
    ensures
        iters == 0 ==> ratings.len() == pinned.len() && forall|p: int|
            0 <= p < pinned.len() ==> #[trigger] ratings[p] == match pinned[p] {
                Some(v) => v,
                None => 0u64,
            },
        iters > 0 ==> fits(earlier, games, pinned, iters - 1, scale) && sweeps(
            earlier,
            ratings,
            games,
            pinned,
            scale,
        ),
{
    let states = choose|states: Seq<Seq<Real>>|
        {
            &&& #[trigger] states.len() == iters + 1
            &&& states[0] == first_ratings(pinned)
            &&& states[iters] == ratings
            &&& forall|k: int|
                0 <= k < iters ==> #[trigger] sweeps_at(states, k, games, pinned, scale)
        };
    if iters > 0 {
        let front = states.drop_last();
        assert(sweeps_at(states, iters - 1, games, pinned, scale));
        assert forall|k: int| 0 <= k < iters - 1 implies #[trigger] sweeps_at(
            front,
            k,
            games,
            pinned,
            scale,
        ) by {
            assert(sweeps_at(states, k, games, pinned, scale));
            assert(front[k] == states[k] && front[k + 1] == states[k + 1]);
        }
        assert(front.len() == (iters - 1) + 1);
        states[iters - 1]
    } else {
        ratings
    }
}

/// [`select_anchors`] spreads the anchors below the lowest of the top, or below the highest of all
/// when there is no top.
pub proof fn selected_anchors_lie_below_the_ceiling<S: RatingScale>(
    names: &Vec<String>,
    ratings: &Vec<Real>,
    n_top: usize,
    n_anchors: usize,
    scale: &S,
    out: (Vec<String>, Vec<String>),
) -> (found: (Seq<usize>, Real, Seq<usize>))
    requires
        ratings@.len() == names@.len(),
        ratings_ok(ratings@),
        call_ensures(select_anchors::<S>, (names, ratings, n_top, n_anchors, scale), out),
    ensures
        ({
            let (best, ceiling, anchors) = found;
            &&& best.len() == out.1@.len() <= n_top
            &&& anchors.len() <= n_anchors
            &&& out.0@.len() == best.len() + 1 + anchors.len()
            &&& forall|i: int|
                0 <= i < best.len() ==> (#[trigger] best[i]) < names@.len() && out.1@[i]@
                    == names@[best[i] as int]@ && !greater(ceiling, ratings@[best[i] as int])
            &&& best.len() > 0 ==> exists|i: int|
                0 <= i < best.len() && ceiling == ratings@[#[trigger] best[i] as int]
            &&& forall|i: int|
                0 <= i < anchors.len() ==> (#[trigger] anchors[i]) < names@.len() && out.0@[
                best.len() + 1 + i]@ == names@[anchors[i] as int]@
            &&& forall|i: int|
                #![trigger anchors[i]]
                0 <= i < anchors.len() ==> exists|d: Real| #[trigger]
                    call_ensures(
                        S::distance,
                        (
                            scale,
                            ratings@[anchors[i] as int],
                            ceiling,
                            i as usize,
                            anchors.len() as usize,
                        ),
                        d,
                    )
            &&& best.len() == 0 ==> forall|i: int|
                0 <= i < anchors.len() ==> !greater(
                    ratings@[#[trigger] anchors[i] as int],
                    ceiling,
                )
        }),
{
    assert(names@.len() == names.len());
    let active = names_of(out.0@);
    let top = names_of(out.1@);
    let (best, ceiling, anchors) = anchors_are_spread_below_the_top(
        names@,
        ratings@,
        n_top as int,
        n_anchors as int,
        *scale,
        active,
        top,
    );
    let others = |x: usize|
        x < names@.len() && names@[x as int]@ != "random"@ && !best.contains(x);
    assert forall|i: int| 0 <= i < best.len() implies (#[trigger] best[i]) < names@.len()
        && out.1@[i]@ == names@[best[i] as int]@ by {
        assert(top[i] == out.1@[i]@);
    }
    assert forall|i: int| 0 <= i < anchors.len() implies (#[trigger] anchors[i]) < names@.len()
        && out.0@[best.len() + 1 + i]@ == names@[anchors[i] as int]@ by {
        assert(others(anchors[i]));
        assert(active[best.len() + 1 + i] == out.0@[best.len() + 1 + i]@);
    }
    assert forall|i: int| #![trigger anchors[i]] 0 <= i < anchors.len() implies exists|
        d: Real,
    | #[trigger]
        call_ensures(
            S::distance,
            (scale, ratings@[anchors[i] as int], ceiling, i as usize, anchors.len() as usize),
            d,
        ) by {
        assert(others(anchors[i]));
        if anchors.take(i).contains(anchors[i]) {
            let j = choose|j: int|
                0 <= j < anchors.take(i).len() && anchors.take(i)[j] == anchors[i];
            assert(anchors[j] == anchors[i]);
        }
        assert(no_farther(
            ratings@,
            anchors[i],
            anchors[i],
            ceiling,
            i,
            anchors.len() as int,
            *scale,
        ));
    }
    assert forall|i: int| best.len() == 0 && 0 <= i < anchors.len() implies !greater(
        ratings@[#[trigger] anchors[i] as int],
        ceiling,
    ) by {
        assert(others(anchors[i]));
    }
    (best, ceiling, anchors)
}

} // verus!

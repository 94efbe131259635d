//! The evaluation of a candidate: it joins the pool, plays its opponents one after the other,
//! and then all models are rated anew and the leader may be served.

use crate::elo::{
    check_ratings, is_selection, lacks_spread, names_of, random_name, random_player, ratings_ok,
    try_anchors, RatingScale,
};
use crate::ieee::Real;
use crate::pool::{
    are_ratings, decides, does_well, entries, is_choice, is_sane, joined, records, refits, text,
    Pool, PoolError, Serving,
};
use vstd::prelude::*;

verus! {

/// An evaluation that is under way.
pub struct Evaluation {
    /// Name of the candidate.
    pub name: String,
    /// The opponents, with the places of their weights.
    pub opponents: Vec<(String, Option<String>)>,
    /// How many of them it has played.
    pub played: usize,
    /// Wins, draws and losses against random moves.
    pub against_random: Option<(i32, i32, i32)>,
}

/// The numbers can be those of a match.
pub open spec fn match_counts(wdl: (i32, i32, i32)) -> bool {
    0 <= wdl.0 && 0 <= wdl.1 && 0 <= wdl.2 && wdl.0 + wdl.1 + wdl.2 <= i32::MAX
}

/// An evaluation is well-formed.
pub open spec fn evaluation_wf(e: Evaluation) -> bool {
    &&& e.played <= e.opponents@.len()
    &&& e.against_random matches Some(wdl) ==> match_counts(wdl)
}

/// The candidate may lead to a model being served: it did well against random moves, or did
/// not play them.
pub open spec fn may_serve(e: Evaluation) -> bool {
    match e.against_random {
        Some(wdl) => does_well(wdl.0 as int, wdl.1 as int, wdl.2 as int),
        None => true,
    }
}

/// An evaluation has begun: the candidate has joined the pool, and its opponents are chosen
/// by the ratings so far; or the choice failed.
pub open spec fn begins<S: RatingScale>(
    before: Pool,
    after: Pool,
    name: Seq<char>,
    st: Seq<char>,
    onnx: Option<Seq<char>>,
    n_top: int,
    n_anchors: int,
    scale: S,
    out: Result<Evaluation, PoolError>,
) -> bool {
    &&& entries(after.models) == joined(entries(before.models), name, st, onnx)
    &&& after == (Pool { models: after.models, ..before })
    &&& match out {
        Ok(e) => {
            &&& e.name@ == name
            &&& e.played == 0
            &&& e.against_random is None
            &&& is_choice(
                entries(after.models),
                name,
                n_top,
                n_anchors,
                scale,
                Ok::<Vec<(String, Option<String>)>, PoolError>(e.opponents),
            )
        },
        Err(err) => is_choice(
            entries(after.models),
            name,
            n_top,
            n_anchors,
            scale,
            Err::<Vec<(String, Option<String>)>, PoolError>(err),
        ),
    }
}

/// The models are rated anew, and the decision about the served model is made. A failure is
/// that of the first step that fails.
pub open spec fn concludes<S: RatingScale>(
    e: Evaluation,
    before: Pool,
    after: Pool,
    n_top: int,
    n_anchors: int,
    margin: Real,
    scale: S,
    out: Result<(Vec<String>, Vec<Real>, Serving), PoolError>,
) -> bool {
    exists|mid: Pool, fitted: Result<(Vec<String>, Vec<Real>), PoolError>|
        {
            &&& #[trigger] refits(before, mid, scale, fitted)
            &&& match fitted {
                Err(err) => after == mid && out == Err::<
                    (Vec<String>, Vec<Real>, Serving),
                    PoolError,
                >(err),
                Ok((names, ratings)) => decides(
                    mid,
                    after,
                    names@,
                    ratings@,
                    n_top,
                    n_anchors,
                    may_serve(e),
                    margin,
                    scale,
                    match out {
                        Ok((ns, rs, decision)) => Ok(decision),
                        Err(err) => Err(err),
                    },
                ) && (out matches Ok((ns, rs, _)) ==> ns == names && rs == ratings),
            }
        }
}

impl Evaluation {
    /// Lets the candidate join the pool and chooses its opponents.
    pub fn begin<S: RatingScale>(
        pool: &mut Pool,
        name: String,
        st: String,
        onnx: Option<String>,
        n_top: usize,
        n_anchors: usize,
        scale: &S,
    ) -> (out: Result<Evaluation, PoolError>)
        ensures
            begins(
                *old(pool),
                *final(pool),
                name@,
                st@,
                text(onnx),
                n_top as int,
                n_anchors as int,
                *scale,
                out,
            ),
            out matches Ok(e) ==> evaluation_wf(e),
    {
        pool.register(name.clone(), st, onnx);
        match pool.opponents(&name, n_top, n_anchors, scale) {
            Ok(opponents) => Ok(Evaluation { name, opponents, played: 0, against_random: None }),
            Err(e) => Err(e),
        }
    }

    /// The next opponent, with the place of its weights; `None` when all have been played.
    pub fn next_opponent(&self) -> (next: Option<&(String, Option<String>)>)
        ensures
            match next {
                Some(opp) => self.played < self.opponents@.len() && *opp
                    == self.opponents@[self.played as int],
                None => self.played >= self.opponents@.len(),
            },
    {
        if self.played < self.opponents.len() {
            Some(&self.opponents[self.played])
        } else {
            None
        }
    }

    /// Writes down the result of the match against the next opponent.
    pub fn record<S: RatingScale>(
        &mut self,
        pool: &mut Pool,
        wins: i32,
        draws: i32,
        losses: i32,
        scale: &S,
    )
        requires
            evaluation_wf(*old(self)),
            old(self).played < old(self).opponents@.len(),
            match_counts((wins, draws, losses)),
        ensures
            evaluation_wf(*final(self)),
            records(
                *old(pool),
                *final(pool),
                old(self).name@,
                old(self).opponents@[old(self).played as int].0@,
                (wins, draws, losses),
                *scale,
            ),
            final(self).played == old(self).played + 1,
            final(self).against_random == if old(self).opponents@[old(self).played as int].0@
                == random_name() {
                Some((wins, draws, losses))
            } else {
                old(self).against_random
            },
            final(self).name == old(self).name,
            final(self).opponents == old(self).opponents,
    {
        let opponent = &self.opponents[self.played].0;
        pool.record_match(&self.name, opponent, wins, draws, losses, scale);
        if *opponent == random_player() {
            self.against_random = Some((wins, draws, losses));
        }
        assert(self.opponents@.len() == self.opponents.len());
        self.played = self.played + 1;
    }

    /// Rates all models anew and decides about the served one. Gives the names, the ratings
    /// and the decision.
    pub fn conclude<S: RatingScale>(
        &self,
        pool: &mut Pool,
        n_top: usize,
        n_anchors: usize,
        margin: Real,
        scale: &S,
    ) -> (out: Result<(Vec<String>, Vec<Real>, Serving), PoolError>)
        requires
            evaluation_wf(*self),
        ensures
            concludes(
                *self,
                *old(pool),
                *final(pool),
                n_top as int,
                n_anchors as int,
                margin,
                *scale,
                out,
            ),
    {
        let ghost start = *pool;
        let fitted = pool.refit(scale);
        let ghost mid = *pool;
        assert(refits(start, mid, *scale, fitted));
        let (names, ratings) = match fitted {
            Ok(out) => out,
            Err(e) => {
                return Err(e);
            },
        };
        let sane: bool = match self.against_random {
            Some((w, d, l)) => is_sane(w, d, l),
            None => true,
        };
        match pool.decide(&names, &ratings, n_top, n_anchors, sane, margin, scale) {
            Ok(decision) => Ok((names, ratings, decision)),
            Err(e) => Err(e),
        }
    }
}

/// The models are rated anew and the top of the pool is written down, with nothing said of
/// what is served. It fails where the rating fails, and where a rating or a distance between
/// ratings is not a number.
pub open spec fn rates_all<S: RatingScale>(
    before: Pool,
    after: Pool,
    n_top: int,
    n_anchors: int,
    scale: S,
    out: Result<(Vec<String>, Vec<Real>), PoolError>,
) -> bool {
    exists|mid: Pool, fitted: Result<(Vec<String>, Vec<Real>), PoolError>|
        {
            &&& #[trigger] refits(before, mid, scale, fitted)
            &&& match fitted {
                Err(err) => after == mid && out == fitted,
                Ok((names, ratings)) => if out is Ok {
                    &&& out == fitted
                    &&& ratings_ok(ratings@)
                    &&& after == (Pool { top: after.top, ..mid })
                    &&& exists|active: Seq<Seq<char>>| #[trigger]
                        is_selection(
                            names@,
                            ratings@,
                            n_top,
                            n_anchors,
                            scale,
                            active,
                            names_of(after.top@),
                        )
                } else {
                    &&& out == Err::<(Vec<String>, Vec<Real>), PoolError>(PoolError::BadRating)
                    &&& ratings_ok(ratings@) ==> lacks_spread(
                        names@,
                        ratings@,
                        n_top,
                        n_anchors,
                        scale,
                    )
                    &&& after == mid
                },
            }
        }
}

impl Evaluation {
    /// Rates all models anew and writes down the top of the pool, where nothing is served.
    /// Gives the names and the ratings.
    pub fn conclude_ratings<S: RatingScale>(
        &self,
        pool: &mut Pool,
        n_top: usize,
        n_anchors: usize,
        scale: &S,
    ) -> (out: Result<(Vec<String>, Vec<Real>), PoolError>)
        ensures
            rates_all(*old(pool), *final(pool), n_top as int, n_anchors as int, *scale, out),
    {
        let ghost start = *pool;
        let fitted = pool.refit(scale);
        assert(refits(start, *pool, *scale, fitted));
        match fitted {
            Err(e) => Err(e),
            Ok((names, ratings)) => {
                if !check_ratings(&ratings) {
                    return Err(PoolError::BadRating);
                }
                let (active, top) = match try_anchors(&names, &ratings, n_top, n_anchors, scale) {
                    Some(chosen) => chosen,
                    None => {
                        return Err(PoolError::BadRating);
                    },
                };
                let ghost act = names_of(active@);
                pool.top = top;
                assert(is_selection(
                    names@,
                    ratings@,
                    n_top as int,
                    n_anchors as int,
                    *scale,
                    act,
                    names_of(pool.top@),
                ));
                Ok((names, ratings))
            },
        }
    }
}

/// What is written down as the rating of the served model when it was chosen never matters for
/// what comes next: with any other value there the same ratings, the same top and the same
/// decision come about.
pub proof fn frozen_ratings_decide_nothing<S: RatingScale>(
    e: Evaluation,
    before: Pool,
    after: Pool,
    n_top: int,
    n_anchors: int,
    margin: Real,
    scale: S,
    out: Result<(Vec<String>, Vec<Real>, Serving), PoolError>,
    frozen: Option<Real>,
)
    requires
        concludes(e, before, after, n_top, n_anchors, margin, scale, out),
    ensures
        concludes(
            e,
            Pool { served_rating: frozen, ..before },
            Pool { served_rating: frozen, ..after },
            n_top,
            n_anchors,
            margin,
            scale,
            out,
        ),
        after.served_rating == before.served_rating,
{
    let (mid, fitted) = choose|mid: Pool, fitted: Result<(Vec<String>, Vec<Real>), PoolError>|
        {
            &&& #[trigger] refits(before, mid, scale, fitted)
            &&& match fitted {
                Err(err) => after == mid && out == Err::<
                    (Vec<String>, Vec<Real>, Serving),
                    PoolError,
                >(err),
                Ok((names, ratings)) => decides(
                    mid,
                    after,
                    names@,
                    ratings@,
                    n_top,
                    n_anchors,
                    may_serve(e),
                    margin,
                    scale,
                    match out {
                        Ok((ns, rs, decision)) => Ok(decision),
                        Err(err) => Err(err),
                    },
                ) && (out matches Ok((ns, rs, _)) ==> ns == names && rs == ratings),
            }
        };
    let before2 = Pool { served_rating: frozen, ..before };
    let mid2 = Pool { served_rating: frozen, ..mid };
    assert(refits(before2, mid2, scale, fitted)) by {
        if let Ok((names, ratings)) = fitted {
            assert(are_ratings(before2, names@, ratings@, scale));
        }
    }
    if let Ok((names, ratings)) = fitted {
        let decided = match out {
            Ok((ns, rs, decision)) => Ok(decision),
            Err(err) => Err(err),
        };
        assert(decides(
            mid2,
            Pool { served_rating: frozen, ..after },
            names@,
            ratings@,
            n_top,
            n_anchors,
            may_serve(e),
            margin,
            scale,
            decided,
        ));
    }
}

/// Nothing is served on account of a candidate that did badly against random moves.
pub proof fn bad_candidates_serve_nothing<S: RatingScale>(
    e: Evaluation,
    before: Pool,
    after: Pool,
    n_top: int,
    n_anchors: int,
    margin: Real,
    scale: S,
    out: Result<(Vec<String>, Vec<Real>, Serving), PoolError>,
)
    requires
        concludes(e, before, after, n_top, n_anchors, margin, scale, out),
        !may_serve(e),
        out is Ok,
    ensures
        out->Ok_0.2 == Serving::Insane,
        after.served == before.served,
        after.served_rating == before.served_rating,
{
}

/// Whoever takes over from a served model has a rating above what that model's present rating
/// and the margin ask for.
pub proof fn serving_clears_the_margin<S: RatingScale>(
    e: Evaluation,
    before: Pool,
    after: Pool,
    n_top: int,
    n_anchors: int,
    margin: Real,
    scale: S,
    out: Result<(Vec<String>, Vec<Real>, Serving), PoolError>,
)
    requires
        concludes(e, before, after, n_top, n_anchors, margin, scale, out),
        before.served is Some,
        out matches Ok((_, _, decision)) && decision is Serve,
    ensures
        exists|bar: Real| #[trigger]
            call_ensures(
                S::threshold,
                (
                    &scale,
                    crate::pool::served_now(before.served, out->Ok_0.0@, out->Ok_0.1@),
                    margin,
                ),
                bar,
            ) && crate::ieee::greater(out->Ok_0.2->Serve_1, bar),
{
}

/// A candidate stands in the way of serving exactly where it played against random moves and had
/// less than three fifths of the points.
pub proof fn candidates_are_held_to_their_games(e: Evaluation)
    requires
        evaluation_wf(e),
    ensures
        e.against_random is None ==> may_serve(e),
        e.against_random matches Some((w, d, l)) ==> (may_serve(e) <==> w + d + l > 0 && 5 * (2 * w
            + d) >= 3 * (2 * (w + d + l))),
{
    if let Some((w, d, l)) = e.against_random {
        crate::pool::sanity_takes_three_fifths(w as int, d as int, l as int);
    }
}

/// An evaluation begins with the candidate joining the pool; its opponents are chosen among the
/// models that are there then. It has played none of them, and nothing else in the pool changes.
pub proof fn candidates_join_before_they_are_matched<S: RatingScale>(
    before: Pool,
    after: Pool,
    name: Seq<char>,
    st: Seq<char>,
    onnx: Option<Seq<char>>,
    n_top: int,
    n_anchors: int,
    scale: S,
    e: Evaluation,
)
    requires
        begins(
            before,
            after,
            name,
            st,
            onnx,
            n_top,
            n_anchors,
            scale,
            Ok::<Evaluation, PoolError>(e),
        ),
    ensures
        entries(after.models) == joined(entries(before.models), name, st, onnx),
        e.name@ == name,
        e.played == 0,
        e.against_random is None,
        is_choice(
            joined(entries(before.models), name, st, onnx),
            name,
            n_top,
            n_anchors,
            scale,
            Ok::<Vec<(String, Option<String>)>, PoolError>(e.opponents),
        ),
        after.results == before.results,
        after.served == before.served,
        after.top == before.top,
{
}

/// An evaluation concludes with all models rated anew, from all results; these ratings decide what
/// is served, and are the ones that are told.
pub proof fn models_are_rated_before_one_is_served<S: RatingScale>(
    e: Evaluation,
    before: Pool,
    after: Pool,
    n_top: int,
    n_anchors: int,
    margin: Real,
    scale: S,
    names: Vec<String>,
    ratings: Vec<Real>,
    decision: Serving,
) -> (rated: Pool)
    requires
        concludes(
            e,
            before,
            after,
            n_top,
            n_anchors,
            margin,
            scale,
            Ok::<(Vec<String>, Vec<Real>, Serving), PoolError>((names, ratings, decision)),
        ),
    ensures
        are_ratings(before, names@, ratings@, scale),
        refits(
            before,
            rated,
            scale,
            Ok::<(Vec<String>, Vec<Real>), PoolError>((names, ratings)),
        ),
        decides(
            rated,
            after,
            names@,
            ratings@,
            n_top,
            n_anchors,
            may_serve(e),
            margin,
            scale,
            Ok::<Serving, PoolError>(decision),
        ),
        entries(after.models) == entries(rated.models),
        after.results == before.results,
        after.served == before.served,
{
    let out = Ok::<(Vec<String>, Vec<Real>, Serving), PoolError>((names, ratings, decision));
    let (mid, fitted) = choose|mid: Pool, fitted: Result<(Vec<String>, Vec<Real>), PoolError>|
        {
            &&& #[trigger] refits(before, mid, scale, fitted)
            &&& match fitted {
                Err(err) => after == mid && out == Err::<
                    (Vec<String>, Vec<Real>, Serving),
                    PoolError,
                >(err),
                Ok((names, ratings)) => decides(
                    mid,
                    after,
                    names@,
                    ratings@,
                    n_top,
                    n_anchors,
                    may_serve(e),
                    margin,
                    scale,
                    match out {
                        Ok((ns, rs, decision)) => Ok(decision),
                        Err(err) => Err(err),
                    },
                ) && (out matches Ok((ns, rs, _)) ==> ns == names && rs == ratings),
            }
        };
    mid
}

} // verus!

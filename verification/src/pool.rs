//! The pool of models: who there is, what they played, and which of them is served.

use crate::elo::{
    anchors_are_spread_below_the_top, check_ratings, distinct, find_name, fit_elo, fits, is_named,
    is_selection, lacks_spread, names_of, pins_of, place, random_name, random_player, ratings_ok,
    resolved, results_ok, stands_at, try_anchors, MatchResult, RatingScale,
};
use crate::ieee::{greater, gt, Real, ZERO};
use indexmap::IndexMap;
use vstd::prelude::*;

verus! {

// --- models by name ----------------------------------------------------------

/// The insertion-ordered map of `indexmap`, of which nothing is known.
#[verifier::external_type_specification]
#[verifier::external_body]
#[verifier::reject_recursive_types(K)]
#[verifier::reject_recursive_types(V)]
#[verifier::reject_recursive_types(S)]
pub struct ExIndexMap<K, V, S>(indexmap::IndexMap<K, V, S>);

/// What the pool knows of a model: where its weights are, where the file to serve is, and
/// its rating.
pub type Entry = (Option<String>, Option<String>, Option<Real>);

/// The models by name, in the order in which they joined.
pub type Models = IndexMap<String, Entry>;

/// An [`Entry`] as a mathematical value.
pub type EntryView = (Option<Seq<char>>, Option<Seq<char>>, Option<Real>);

/// The names and entries of the models, in order.
pub uninterp spec fn entries(models: IndexMap<String, (Option<String>, Option<String>, Option<u64>)>) -> Seq<(Seq<char>, (Option<Seq<char>>, Option<Seq<char>>, Option<u64>))>;

/// A text that may be missing, as a mathematical value.
pub open spec fn text(t: Option<String>) -> Option<Seq<char>> {
    match t {
        Some(s) => Some(s@),
        None => None,
    }
}

/// An entry as a mathematical value.
pub open spec fn entry_view(e: Entry) -> EntryView {
    (text(e.0), text(e.1), e.2)
}

/// The name is that of the `i`-th model.
pub open spec fn key_at(s: Seq<(Seq<char>, EntryView)>, name: Seq<char>, i: int) -> bool {
    0 <= i < s.len() && s[i].0 == name
}

/// There is a model with this name.
pub open spec fn has_key(s: Seq<(Seq<char>, EntryView)>, name: Seq<char>) -> bool {
    exists|i: int| #[trigger] key_at(s, name, i)
}

/// Place of the model with this name.
pub open spec fn key_place(s: Seq<(Seq<char>, EntryView)>, name: Seq<char>) -> int {
    choose|i: int| #[trigger] key_at(s, name, i)
}

/// The models with one entry written: in its place if there is one with that name, and at
/// the end otherwise.
pub open spec fn put(s: Seq<(Seq<char>, EntryView)>, name: Seq<char>, e: EntryView) -> Seq<
    (Seq<char>, EntryView),
> {
    if has_key(s, name) {
        s.update(key_place(s, name), (name, e))
    } else {
        s.push((name, e))
    }
}

/// Models keep their places: writing an entry moves nobody, and a new name goes to the end.
pub proof fn models_keep_their_places(
    s: Seq<(Seq<char>, EntryView)>,
    name: Seq<char>,
    e: EntryView,
)
    ensures
        put(s, name, e).len() == s.len() + if has_key(s, name) {
            0int
        } else {
            1
        },
        forall|i: int| 0 <= i < s.len() ==> (#[trigger] put(s, name, e)[i]).0 == s[i].0,
        forall|i: int|
            0 <= i < s.len() && s[i].0 != name ==> #[trigger] put(s, name, e)[i] == s[i],
        has_key(put(s, name, e), name),
{
    let t = put(s, name, e);
    if has_key(s, name) {
        let p = key_place(s, name);
        assert(key_at(s, name, p));
        assert(key_at(t, name, p));
    } else {
        assert(key_at(t, name, s.len() as int));
    }
}

/// A map without models, by `indexmap::IndexMap::new`.
#[verifier::external_body]
fn empty_models() -> (models: Models)
    ensures
        entries(models).len() == 0,
{
    IndexMap::new()
}

/// Writes an entry, by `indexmap::IndexMap::insert`: a name that is there keeps its place
/// and gets the new entry, and a new name goes to the end.
#[verifier::external_body]
fn insert_model(models: &mut Models, name: String, entry: Entry)
    ensures
        entries(*final(models)) == put(entries(*old(models)), name@, entry_view(entry)),
{
    let _ = models.insert(name, entry);
}

/// The names of the models, by `indexmap::IndexMap::keys`, in the order of the map. No name
/// occurs twice.
#[verifier::external_body]
fn model_names(models: &Models) -> (names: Vec<String>)
    ensures
        names@.len() == entries(*models).len(),
        forall|i: int| 0 <= i < names@.len() ==> (#[trigger] names@[i])@ == entries(*models)[i].0,
        distinct(names@),
{
    models.keys().cloned().collect()
}

/// A copy of the entry with the given name, by `indexmap::IndexMap::get`; `None` when the
/// map has no such name.
#[verifier::external_body]
fn find_model(models: &Models, name: &String) -> (entry: Option<Entry>)
    ensures
        match entry {
            Some(e) => has_key(entries(*models), name@) && entry_view(e) == entries(
                *models,
            )[key_place(entries(*models), name@)].1,
            None => !has_key(entries(*models), name@),
        },
{
    models.get(name).cloned()
}

// --- the pool ----------------------------------------------------------------

/// The pool of models.
pub struct Pool {
    /// Name of the served model.
    pub served: Option<String>,
    /// Rating of the served model when it was chosen.
    pub served_rating: Option<Real>,
    pub models: Models,
    pub results: Vec<MatchResult>,
    /// Names of the best models.
    pub top: Vec<String>,
}

/// What can be wrong with a pool.
#[derive(PartialEq, Eq, Debug)]
pub enum PoolError {
    /// The model has no weights to play with.
    NoWeights(String),
    /// The model has no file to serve.
    NothingToServe(String),
    /// A result names a model that the pool does not know.
    UnknownModel,
    /// A rating is not a number.
    BadRating,
}

/// A model takes part: its entry is written without a rating. The player that moves at random
/// joins, with rating zero, unless it is there.
pub open spec fn joined(
    s: Seq<(Seq<char>, EntryView)>,
    name: Seq<char>,
    st: Seq<char>,
    onnx: Option<Seq<char>>,
) -> Seq<(Seq<char>, EntryView)> {
    let with = put(s, name, (Some(st), onnx, None));
    if has_key(with, random_name()) {
        with
    } else {
        with.push((random_name(), (None, None, Some(ZERO))))
    }
}

/// The ratings of the models, zero for those that have none.
pub open spec fn ratings_in(s: Seq<(Seq<char>, EntryView)>) -> Seq<Real> {
    Seq::new(
        s.len(),
        |i: int|
            match s[i].1.2 {
                Some(r) => r,
                None => ZERO,
            },
    )
}

/// The names of the models.
pub open spec fn keys_of(s: Seq<(Seq<char>, EntryView)>) -> Seq<Seq<char>> {
    Seq::new(s.len(), |i: int| s[i].0)
}

impl Pool {
    /// An empty pool.
    pub fn new() -> (pool: Self)
        ensures
            pool.served is None,
            pool.served_rating is None,
            entries(pool.models).len() == 0,
            pool.results@.len() == 0,
            pool.top@.len() == 0,
    {
        Pool {
            served: None,
            served_rating: None,
            models: empty_models(),
            results: Vec::new(),
            top: Vec::new(),
        }
    }

    /// Writes the entry of a model.
    pub fn set_model(&mut self, name: String, entry: Entry)
        ensures
            entries(final(self).models) == put(
                entries(old(self).models),
                name@,
                entry_view(entry),
            ),
            *final(self) == (Pool { models: final(self).models, ..*old(self) }),
    {
        insert_model(&mut self.models, name, entry);
    }

    /// The entry of a model, if the pool knows it.
    pub fn model(&self, name: &String) -> (entry: Option<Entry>)
        ensures
            match entry {
                Some(e) => has_key(entries(self.models), name@) && entry_view(e) == entries(
                    self.models,
                )[key_place(entries(self.models), name@)].1,
                None => !has_key(entries(self.models), name@),
            },
    {
        find_model(&self.models, name)
    }

    /// The names of the models, in the order in which they joined.
    pub fn names(&self) -> (names: Vec<String>)
        ensures
            names_of(names@) == keys_of(entries(self.models)),
            distinct(names@),
    {
        let names = model_names(&self.models);
        assert(names_of(names@) =~= keys_of(entries(self.models)));
        names
    }

    /// Lets a model take part, and the player that moves at random with it.
    pub fn register(&mut self, name: String, st: String, onnx: Option<String>)
        ensures
            entries(final(self).models) == joined(entries(old(self).models), name@, st@, text(onnx)),
            *final(self) == (Pool { models: final(self).models, ..*old(self) }),
    {
        insert_model(&mut self.models, name, (Some(st), onnx, None));
        let random = random_player();
        if find_model(&self.models, &random).is_none() {
            insert_model(&mut self.models, random, (None, None, Some(ZERO)));
        }
    }

    /// The names of the models and their ratings, zero for those that have none.
    pub fn ratings(&self) -> (out: (Vec<String>, Vec<Real>))
        ensures
            names_of(out.0@) == keys_of(entries(self.models)),
            distinct(out.0@),
            out.1@ == ratings_in(entries(self.models)),
    {
        let names = self.names();
        let ghost s = entries(self.models);
        let mut ratings: Vec<Real> = Vec::new();
        let mut i: usize = 0;
        while i < names.len()
            invariant
                0 <= i <= names@.len(),
                s == entries(self.models),
                names_of(names@) == keys_of(s),
                distinct(names@),
                ratings@ == ratings_in(s).take(i as int),
            decreases names@.len() - i,
        {
            proof {
                lemma_key_place(s, names@, i as int);
            }
            let r: Real = match find_model(&self.models, &names[i]) {
                Some((_, _, Some(r))) => r,
                _ => ZERO,
            };
            ratings.push(r);
            assert(ratings@ =~= ratings_in(s).take(i + 1));
            i += 1;
        }
        assert(names_of(names@).len() == names@.len());
        assert(ratings@ =~= ratings_in(s));
        (names, ratings)
    }
}

/// A model stands where its name stands among the names.
proof fn lemma_key_place(s: Seq<(Seq<char>, EntryView)>, names: Seq<String>, i: int)
    requires
        names_of(names) == keys_of(s),
        distinct(names),
        0 <= i < names.len(),
    ensures
        names.len() == s.len(),
        has_key(s, names[i]@),
        key_place(s, names[i]@) == i,
{
    assert(names_of(names).len() == names.len());
    assert(keys_of(s).len() == s.len());
    assert(names_of(names)[i] == keys_of(s)[i]);
    assert(key_at(s, names[i]@, i));
    let j = key_place(s, names[i]@);
    assert(key_at(s, names[i]@, j));
    assert(names_of(names)[j] == keys_of(s)[j]);
    assert(names[j]@ == names[i]@);
}

// --- who plays whom ----------------------------------------------------------

/// The names without the given one.
pub open spec fn without(names: Seq<Seq<char>>, name: Seq<char>, n: nat) -> Seq<Seq<char>>
    decreases n,
{
    if n == 0 {
        Seq::empty()
    } else {
        let rest = without(names, name, (n - 1) as nat);
        if names[n - 1] != name {
            rest.push(names[n - 1])
        } else {
            rest
        }
    }
}

/// Those that a model plays: everyone chosen but itself, or the player that moves at random
/// when there is nobody else.
pub open spec fn opponents_of(active: Seq<Seq<char>>, name: Seq<char>) -> Seq<Seq<char>> {
    let others = without(active, name, active.len());
    if others.len() == 0 {
        seq![random_name()]
    } else {
        others
    }
}

/// An opponent with the place of its weights, which the player that moves at random has not.
pub open spec fn is_opponent(
    s: Seq<(Seq<char>, EntryView)>,
    opp: (String, Option<String>),
    name: Seq<char>,
) -> bool {
    &&& opp.0@ == name
    &&& if name == random_name() {
        opp.1 is None
    } else {
        opp.1 is Some && has_key(s, name) && text(opp.1) == s[key_place(s, name)].1.0
    }
}

/// The model cannot play: it does not move at random, and its weights are missing.
pub open spec fn lacks_weights(s: Seq<(Seq<char>, EntryView)>, name: Seq<char>) -> bool {
    name != random_name() && !(has_key(s, name) && s[key_place(s, name)].1.0 is Some)
}

/// The first of the names whose model cannot play is at place `i`.
pub open spec fn first_unarmed(
    s: Seq<(Seq<char>, EntryView)>,
    names: Seq<Seq<char>>,
    i: int,
) -> bool {
    &&& 0 <= i < names.len()
    &&& lacks_weights(s, names[i])
    &&& forall|j: int| 0 <= j < i ==> !lacks_weights(s, #[trigger] names[j])
}

/// The opponents of a model by the ratings so far: a list of them, or else what is wrong: a
/// rating or a distance between ratings is not a number, or the named opponent is the first
/// without weights.
pub open spec fn is_choice<S: RatingScale>(
    s: Seq<(Seq<char>, EntryView)>,
    name: Seq<char>,
    n_top: int,
    n_anchors: int,
    scale: S,
    out: Result<Vec<(String, Option<String>)>, PoolError>,
) -> bool {
    match out {
        Ok(list) => {
            &&& ratings_ok(ratings_in(s))
            &&& exists|names: Seq<String>, active: Seq<Seq<char>>, top: Seq<Seq<char>>|
                {
                    &&& names_of(names) == keys_of(s)
                    &&& #[trigger] is_selection(
                        names,
                        ratings_in(s),
                        n_top,
                        n_anchors,
                        scale,
                        active,
                        top,
                    )
                    &&& list@.len() == opponents_of(active, name).len()
                    &&& forall|i: int|
                        0 <= i < list@.len() ==> is_opponent(
                            s,
                            #[trigger] list@[i],
                            opponents_of(active, name)[i],
                        )
                }
        },
        Err(PoolError::BadRating) => !ratings_ok(ratings_in(s)) || exists|names: Seq<String>|
            names_of(names) == keys_of(s) && #[trigger] lacks_spread(
                names,
                ratings_in(s),
                n_top,
                n_anchors,
                scale,
            ),
        Err(PoolError::NoWeights(m)) => {
            &&& ratings_ok(ratings_in(s))
            &&& exists|names: Seq<String>, active: Seq<Seq<char>>, top: Seq<Seq<char>>, i: int|
                {
                    &&& names_of(names) == keys_of(s)
                    &&& #[trigger] is_selection(
                        names,
                        ratings_in(s),
                        n_top,
                        n_anchors,
                        scale,
                        active,
                        top,
                    )
                    &&& #[trigger] first_unarmed(s, opponents_of(active, name), i)
                    &&& m@ == opponents_of(active, name)[i]
                }
        },
        Err(_) => false,
    }
}

/// A match is written down in a pool.
pub open spec fn records<S: RatingScale>(
    before: Pool,
    after: Pool,
    name: Seq<char>,
    opponent: Seq<char>,
    wdl: (i32, i32, i32),
    scale: S,
) -> bool {
    let r = after.results@.last();
    &&& after == (Pool { results: after.results, ..before })
    &&& after.results@ == before.results@.push(r)
    &&& r.a@ == name
    &&& r.b@ == opponent
    &&& call_ensures(S::points, (&scale, (2 * wdl.0 + wdl.1) as i64), r.score_a)
    &&& r.n == wdl.0 + wdl.1 + wdl.2
}

impl Pool {
    /// The opponents of a model by the ratings so far, with the places of their weights. Fails
    /// where a rating or a distance between ratings is not a number, and at the first opponent
    /// without weights.
    pub fn opponents<S: RatingScale>(
        &self,
        name: &String,
        n_top: usize,
        n_anchors: usize,
        scale: &S,
    ) -> (out: Result<Vec<(String, Option<String>)>, PoolError>)
        ensures
            is_choice(
                entries(self.models),
                name@,
                n_top as int,
                n_anchors as int,
                *scale,
                out,
            ),
    {
        let ghost s = entries(self.models);
        let (names, ratings) = self.ratings();
        if !check_ratings(&ratings) {
            return Err(PoolError::BadRating);
        }
        proof {
            assert(names_of(names@).len() == names@.len());
            assert(keys_of(s).len() == s.len());
        }
        let (active, tops) = match try_anchors(&names, &ratings, n_top, n_anchors, scale) {
            Some(chosen) => chosen,
            None => {
                return Err(PoolError::BadRating);
            },
        };
        let ghost act = names_of(active@);
        let random = random_player();
        let mut others: Vec<String> = Vec::new();
        let mut i: usize = 0;
        while i < active.len()
            invariant
                0 <= i <= active@.len(),
                act == names_of(active@),
                names_of(others@) == without(act, name@, i as nat),
            decreases active@.len() - i,
        {
            if active[i] != *name {
                let ghost before = names_of(others@);
                others.push(active[i].clone());
                assert(names_of(others@) =~= before.push(act[i as int]));
            }
            i += 1;
        }
        assert(act.len() == active@.len());
        if others.len() == 0 {
            others.push(random.clone());
            assert(names_of(others@) =~= seq![random_name()]);
        }
        let ghost wanted = opponents_of(act, name@);
        assert(names_of(others@) == wanted);
        assert(names_of(others@).len() == others@.len());
        assert(is_selection(
            names@,
            ratings_in(s),
            n_top as int,
            n_anchors as int,
            *scale,
            act,
            names_of(tops@),
        ));
        let mut list: Vec<(String, Option<String>)> = Vec::new();
        let mut k: usize = 0;
        while k < others.len()
            invariant
                0 <= k <= others@.len(),
                s == entries(self.models),
                names_of(names@) == keys_of(s),
                ratings_ok(ratings_in(s)),
                is_selection(
                    names@,
                    ratings_in(s),
                    n_top as int,
                    n_anchors as int,
                    *scale,
                    act,
                    names_of(tops@),
                ),
                wanted == opponents_of(act, name@),
                random@ == random_name(),
                names_of(others@) == wanted,
                wanted.len() == others@.len(),
                list@.len() == k,
                forall|j: int|
                    0 <= j < k ==> is_opponent(s, #[trigger] list@[j], wanted[j]),
            decreases others@.len() - k,
        {
            assert(names_of(others@)[k as int] == others@[k as int]@);
            let ghost before = list@;
            let o = others[k].clone();
            if o == random {
                list.push((o, None));
            } else {
                match find_model(&self.models, &o) {
                    Some((Some(st), _, _)) => {
                        list.push((o, Some(st)));
                    },
                    _ => {
                        proof {
                            assert forall|j: int| 0 <= j < k implies !lacks_weights(
                                s,
                                #[trigger] wanted[j],
                            ) by {
                                assert(is_opponent(s, list@[j], wanted[j]));
                            }
                            assert(first_unarmed(s, wanted, k as int));
                        }
                        return Err(PoolError::NoWeights(o));
                    },
                }
            }
            proof {
                assert forall|j: int| 0 <= j < k + 1 implies is_opponent(
                    s,
                    #[trigger] list@[j],
                    wanted[j],
                ) by {
                    if j < k {
                        assert(list@[j] == before[j]);
                    }
                }
            }
            k += 1;
        }
        Ok(list)
    }

    /// Writes down the result of a match: a win counts one point, and a draw half a point.
    pub fn record_match<S: RatingScale>(
        &mut self,
        name: &String,
        opponent: &String,
        wins: i32,
        draws: i32,
        losses: i32,
        scale: &S,
    )
        requires
            0 <= wins,
            0 <= draws,
            0 <= losses,
            wins + draws + losses <= i32::MAX,
        ensures
            records(
                *old(self),
                *final(self),
                name@,
                opponent@,
                (wins, draws, losses),
                *scale,
            ),
    {
        let halves: i64 = 2 * (wins as i64) + draws as i64;
        let score_a = scale.points(halves);
        let n: i64 = (wins + draws + losses) as i64;
        let ghost before = self.results@;
        self.results.push(MatchResult { a: name.clone(), b: opponent.clone(), score_a, n });
        assert(self.results@ =~= before.push(self.results@.last()));
    }
}

/// The share of the points that a model has to score against random moves: three fifths.
pub open spec fn does_well(wins: int, draws: int, losses: int) -> bool {
    let n = wins + draws + losses;
    10 * wins + 5 * draws >= 6 * if n > 1 {
        n
    } else {
        1
    }
}

/// Tells whether a model scores at least three fifths of the points against random moves.
pub fn is_sane(wins: i32, draws: i32, losses: i32) -> (ok: bool)
    requires
        0 <= wins,
        0 <= draws,
        0 <= losses,
        wins + draws + losses <= i32::MAX,
    ensures
        ok == does_well(wins as int, draws as int, losses as int),
{
    let n: i64 = (wins + draws + losses) as i64;
    let most: i64 = if n > 1 {
        n
    } else {
        1
    };
    10 * (wins as i64) + 5 * (draws as i64) >= 6 * most
}

/// More wins never make a candidate insane, and more losses never make it sane.
pub proof fn sanity_is_monotone(wins: int, draws: int, losses: int)
    requires
        0 <= wins,
        0 <= draws,
        0 <= losses,
    ensures
        does_well(wins, draws, losses) ==> does_well(wins + 1, draws, losses),
        does_well(wins, draws, losses + 1) ==> does_well(wins, draws, losses),
{
}

// --- ratings and serving -----------------------------------------------------

/// How often every rating is improved.
pub const FIT_ITERS: usize = 400;

/// The pin of the player that moves at random.
pub open spec fn is_random_pin(fixed: Seq<(String, Real)>) -> bool {
    fixed.len() == 1 && fixed[0].0@ == random_name() && fixed[0].1 == ZERO
}

/// The models with new ratings, each written down in its rounded form.
pub open spec fn rerated<S: RatingScale>(
    before: Seq<(Seq<char>, EntryView)>,
    after: Seq<(Seq<char>, EntryView)>,
    ratings: Seq<Real>,
    n: int,
    scale: S,
) -> bool {
    &&& after.len() == before.len()
    &&& forall|i: int|
        0 <= i < before.len() ==> {
            &&& (#[trigger] after[i]).0 == before[i].0
            &&& after[i].1.0 == before[i].1.0
            &&& after[i].1.1 == before[i].1.1
            &&& if i < n {
                after[i].1.2 matches Some(r) && call_ensures(S::rounded, (&scale, ratings[i]), r)
            } else {
                after[i].1.2 == before[i].1.2
            }
        }
}

/// The ratings are fitted to the results of the pool, with the player that moves at random
/// pinned at zero.
pub open spec fn are_ratings<S: RatingScale>(
    pool: Pool,
    names: Seq<String>,
    ratings: Seq<Real>,
    scale: S,
) -> bool {
    &&& names_of(names) == keys_of(entries(pool.models))
    &&& distinct(names)
    &&& ratings.len() == names.len()
    &&& results_ok(names, pool.results@)
    &&& exists|fixed: Seq<(String, Real)>|
        is_random_pin(fixed) && #[trigger] fits(
            ratings,
            resolved(names, pool.results@, pool.results@.len()),
            pins_of(names, fixed),
            FIT_ITERS as int,
            scale,
        )
    &&& forall|i: int|
        0 <= i < names.len() && (#[trigger] names[i])@ == random_name() ==> ratings[i] == ZERO
}

/// The ratings of all models are fitted and written down; or a result that counts names a
/// model that the pool does not know, and nothing changes.
pub open spec fn refits<S: RatingScale>(
    before: Pool,
    after: Pool,
    scale: S,
    out: Result<(Vec<String>, Vec<Real>), PoolError>,
) -> bool {
    match out {
        Ok((names, ratings)) => {
            &&& are_ratings(before, names@, ratings@, scale)
            &&& rerated(
                entries(before.models),
                entries(after.models),
                ratings@,
                names@.len() as int,
                scale,
            )
            &&& after == (Pool { models: after.models, ..before })
        },
        Err(e) => {
            &&& after == before
            &&& e == PoolError::UnknownModel
            &&& exists|names: Seq<String>|
                names_of(names) == keys_of(entries(before.models)) && !#[trigger] results_ok(
                    names,
                    before.results@,
                )
        },
    }
}

impl Pool {
    /// Tells whether every result that counts names models of the pool.
    fn check_results(&self, names: &Vec<String>) -> (ok: bool)
        ensures
            ok == results_ok(names@, self.results@),
    {
        let mut k: usize = 0;
        while k < self.results.len()
            invariant
                0 <= k <= self.results@.len(),
                forall|j: int|
                    0 <= j < k && (#[trigger] self.results@[j]).n > 0 ==> is_named(
                        names@,
                        self.results@[j].a@,
                    ) && is_named(names@, self.results@[j].b@),
            decreases self.results@.len() - k,
        {
            let r = &self.results[k];
            if r.n > 0 {
                let a = find_name(names, &r.a);
                let b = find_name(names, &r.b);
                if a.is_none() || b.is_none() {
                    assert(self.results@[k as int].n > 0);
                    return false;
                }
                if let (Some(i), Some(j)) = (a, b) {
                    assert(stands_at(names@, r.a@, i as int));
                    assert(stands_at(names@, r.b@, j as int));
                }
            }
            k += 1;
        }
        true
    }

    /// Fits the ratings of all models to all results. Gives the names and the ratings.
    pub fn fit<S: RatingScale>(&self, scale: &S) -> (out: Result<(Vec<String>, Vec<Real>), PoolError>)
        ensures
            match out {
                Ok((names, ratings)) => are_ratings(*self, names@, ratings@, *scale),
                Err(e) => e == PoolError::UnknownModel && exists|names: Seq<String>|
                    names_of(names) == keys_of(entries(self.models)) && !#[trigger] results_ok(
                        names,
                        self.results@,
                    ),
            },
    {
        let names = self.names();
        if !self.check_results(&names) {
            return Err(PoolError::UnknownModel);
        }
        let mut fixed: Vec<(String, Real)> = Vec::new();
        fixed.push((random_player(), ZERO));
        let (ratings, _) = fit_elo(&names, &self.results, &fixed, FIT_ITERS, scale);
        proof {
            assert(is_random_pin(fixed@));
            assert forall|i: int| 0 <= i < names@.len() && (#[trigger] names@[i])@
                == random_name() implies ratings@[i] == ZERO by {
                assert(crate::elo::pins_at(fixed@, names@[i]@, 0));
                let k = choose|k: int| #[trigger] crate::elo::pins_at(fixed@, names@[i]@, k);
                assert(crate::elo::pins_at(fixed@, names@[i]@, k));
                assert(pins_of(names@, fixed@)[i] == Some(ZERO));
            }
        }
        Ok((names, ratings))
    }

    /// Fits the ratings of all models to all results, and writes them down. Gives the names
    /// and the ratings.
    pub fn refit<S: RatingScale>(&mut self, scale: &S) -> (out: Result<
        (Vec<String>, Vec<Real>),
        PoolError,
    >)
        ensures
            refits(*old(self), *final(self), *scale, out),
    {
        let ghost start = *self;
        let ghost s = entries(self.models);
        let (names, ratings) = match self.fit(scale) {
            Ok(fitted) => fitted,
            Err(e) => {
                return Err(e);
            },
        };
        proof {
            assert(names_of(names@).len() == names@.len());
            assert(keys_of(s).len() == s.len());
        }
        let mut i: usize = 0;
        while i < names.len()
            invariant
                0 <= i <= names@.len(),
                s == entries(start.models),
                names@.len() == s.len(),
                ratings@.len() == names@.len(),
                distinct(names@),
                names_of(names@) == keys_of(s),
                *self == (Pool { models: self.models, ..start }),
                rerated(s, entries(self.models), ratings@, i as int, *scale),
            decreases names@.len() - i,
        {
            let ghost before = entries(self.models);
            proof {
                assert(keys_of(before) =~= keys_of(s));
                lemma_key_place(before, names@, i as int);
            }
            let r = scale.rounded(ratings[i]);
            assert(call_ensures(S::rounded, (scale, ratings@[i as int]), r));
            if let Some((st, onnx, _)) = find_model(&self.models, &names[i]) {
                insert_model(&mut self.models, names[i].clone(), (st, onnx, Some(r)));
            }
            proof {
                let after = entries(self.models);
                assert forall|j: int| 0 <= j < s.len() implies {
                    &&& (#[trigger] after[j]).0 == s[j].0
                    &&& after[j].1.0 == s[j].1.0
                    &&& after[j].1.1 == s[j].1.1
                    &&& if j < i + 1 {
                        after[j].1.2 matches Some(x) && call_ensures(
                            S::rounded,
                            (scale, ratings@[j]),
                            x,
                        )
                    } else {
                        after[j].1.2 == s[j].1.2
                    }
                } by {
                    assert(before[j].0 == s[j].0);
                    if j == i {
                        assert(keys_of(s)[j] == names_of(names@)[j]);
                    } else {
                        assert(after[j] == before[j]);
                    }
                }
            }
            i += 1;
        }
        Ok((names, ratings))
    }
}

/// What to do about the served model.
#[derive(PartialEq, Eq, Debug)]
pub enum Serving {
    /// Serve the model with this name, which has this rating, from the given file.
    Serve(String, Real, String),
    /// Keep the served model: the leader with this name and rating is within the margin of it.
    /// The last number is the present rating of the served model, if it has one.
    Keep(String, Real, Option<Real>),
    /// The candidate did too badly against the random player.
    Insane,
    /// There is no model to serve.
    Nobody,
}

/// The rating of the served model among the fitted ones.
pub open spec fn served_now(served: Option<String>, names: Seq<String>, ratings: Seq<Real>) -> Option<Real> {
    match served {
        Some(s) => if is_named(names, s@) {
            Some(ratings[place(names, s@)])
        } else {
            None
        },
        None => None,
    }
}

/// The leader is to be served: nothing is served yet, or its rating exceeds that of the served
/// model by more than the margin.
pub open spec fn takes_over<S: RatingScale>(
    served: Option<String>,
    names: Seq<String>,
    ratings: Seq<Real>,
    lead: Real,
    margin: Real,
    scale: S,
    yes: bool,
) -> bool {
    if served is None {
        yes
    } else {
        exists|bar: Real| #[trigger]
            call_ensures(S::threshold, (&scale, served_now(served, names, ratings), margin), bar)
                && yes == greater(lead, bar)
    }
}

/// There is no file to serve the model from.
pub open spec fn lacks_file(s: Seq<(Seq<char>, EntryView)>, name: Seq<char>) -> bool {
    !(has_key(s, name) && s[key_place(s, name)].1.1 is Some)
}

/// The decision about the served model.
pub open spec fn is_decision<S: RatingScale>(
    pool: Pool,
    names: Seq<String>,
    ratings: Seq<Real>,
    sane: bool,
    margin: Real,
    scale: S,
    decision: Serving,
) -> bool {
    let s = entries(pool.models);
    if !sane {
        decision == Serving::Insane
    } else if pool.top@.len() == 0 {
        decision == Serving::Nobody
    } else {
        let leader = pool.top@[0]@;
        let lead = ratings[place(names, leader)];
        match decision {
            Serving::Serve(name, rating, onnx) => {
                &&& name@ == leader
                &&& rating == lead
                &&& has_key(s, leader)
                &&& s[key_place(s, leader)].1.1 == Some(onnx@)
                &&& takes_over(pool.served, names, ratings, lead, margin, scale, true)
            },
            Serving::Keep(name, rating, now) => {
                &&& name@ == leader
                &&& rating == lead
                &&& now == served_now(pool.served, names, ratings)
                &&& takes_over(pool.served, names, ratings, lead, margin, scale, false)
            },
            _ => false,
        }
    }
}

/// The top of the pool is written down and the decision is made. It fails where a rating or a
/// distance between ratings is not a number, with nothing changed, and where the leader is to be served from a file that
/// is missing.
pub open spec fn decides<S: RatingScale>(
    before: Pool,
    after: Pool,
    names: Seq<String>,
    ratings: Seq<Real>,
    n_top: int,
    n_anchors: int,
    sane: bool,
    margin: Real,
    scale: S,
    out: Result<Serving, PoolError>,
) -> bool {
    if !ratings_ok(ratings) {
        out == Err::<Serving, PoolError>(PoolError::BadRating) && after == before
    } else if out == Err::<Serving, PoolError>(PoolError::BadRating) {
        lacks_spread(names, ratings, n_top, n_anchors, scale) && after == before
    } else {
        &&& after == (Pool { top: after.top, ..before })
        &&& exists|active: Seq<Seq<char>>| #[trigger]
            is_selection(
                names,
                ratings,
                n_top,
                n_anchors,
                scale,
                active,
                names_of(after.top@),
            )
        &&& match out {
            Ok(decision) => is_decision(after, names, ratings, sane, margin, scale, decision),
            Err(PoolError::NothingToServe(m)) => {
                &&& sane
                &&& after.top@.len() > 0
                &&& m@ == after.top@[0]@
                &&& takes_over(
                    before.served,
                    names,
                    ratings,
                    ratings[place(names, m@)],
                    margin,
                    scale,
                    true,
                )
                &&& lacks_file(entries(before.models), m@)
            },
            Err(_) => false,
        }
    }
}

impl Pool {
    /// Writes down who is at the top, and decides whether the leader is to be served.
    pub fn decide<S: RatingScale>(
        &mut self,
        names: &Vec<String>,
        ratings: &Vec<Real>,
        n_top: usize,
        n_anchors: usize,
        sane: bool,
        margin: Real,
        scale: &S,
    ) -> (out: Result<Serving, PoolError>)
        requires
            ratings@.len() == names@.len(),
            distinct(names@),
        ensures
            decides(
                *old(self),
                *final(self),
                names@,
                ratings@,
                n_top as int,
                n_anchors as int,
                sane,
                margin,
                *scale,
                out,
            ),
    {
        if !check_ratings(ratings) {
            return Err(PoolError::BadRating);
        }
        let (active, top) = match try_anchors(names, ratings, n_top, n_anchors, scale) {
            Some(chosen) => chosen,
            None => {
                return Err(PoolError::BadRating);
            },
        };
        let ghost act = names_of(active@);
        let ghost best = names_of(top@);
        self.top = top;
        assert(is_selection(
            names@,
            ratings@,
            n_top as int,
            n_anchors as int,
            *scale,
            act,
            names_of(self.top@),
        ));
        if !sane {
            return Ok(Serving::Insane);
        }
        if self.top.len() == 0 {
            return Ok(Serving::Nobody);
        }
        let leader = self.top[0].clone();
        let at = find_name(names, &leader);
        proof {
            lemma_top_is_named(
                names@,
                ratings@,
                n_top as int,
                n_anchors as int,
                *scale,
                act,
                best,
            );
            assert(best[0] == leader@);
        }
        let i: usize = match at {
            Some(i) => i,
            None => {
                return Ok(Serving::Nobody);
            },
        };
        proof {
            lemma_places(names@, leader@, i as int);
        }
        let lead: Real = ratings[i];
        let now: Option<Real> = match &self.served {
            None => None,
            Some(s) => match find_name(names, s) {
                Some(j) => {
                    proof {
                        lemma_places(names@, s@, j as int);
                    }
                    Some(ratings[j])
                },
                None => None,
            },
        };
        assert(now == served_now(self.served, names@, ratings@));
        let yes: bool = match &self.served {
            None => true,
            Some(_) => {
                let bar = scale.threshold(now, margin);
                assert(call_ensures(S::threshold, (scale, now, margin), bar));
                gt(lead, bar)
            },
        };
        assert(takes_over(self.served, names@, ratings@, lead, margin, *scale, yes));
        if !yes {
            return Ok(Serving::Keep(leader, lead, now));
        }
        match find_model(&self.models, &leader) {
            Some((_, Some(onnx), _)) => Ok(Serving::Serve(leader, lead, onnx)),
            _ => Err(PoolError::NothingToServe(leader)),
        }
    }

    /// Writes down that a model is served.
    pub fn mark_served<S: RatingScale>(&mut self, name: String, rating: Real, scale: &S)
        ensures
            final(self).served == Some(name),
            final(self).served_rating matches Some(r) && call_ensures(
                S::rounded,
                (scale, rating),
                r,
            ),
            *final(self) == (Pool {
                served: final(self).served,
                served_rating: final(self).served_rating,
                ..*old(self)
            }),
    {
        let r = scale.rounded(rating);
        self.served = Some(name);
        self.served_rating = Some(r);
    }
}

proof fn lemma_places(names: Seq<String>, name: Seq<char>, i: int)
    requires
        distinct(names),
        stands_at(names, name, i),
    ensures
        is_named(names, name),
        place(names, name) == i,
{
    let j = place(names, name);
    assert(stands_at(names, name, j));
    assert(names[i]@ == names[j]@);
}

proof fn lemma_top_is_named<S: RatingScale>(
    names: Seq<String>,
    ratings: Seq<Real>,
    n_top: int,
    n_anchors: int,
    scale: S,
    active: Seq<Seq<char>>,
    top: Seq<Seq<char>>,
)
    requires
        0 <= n_top,
        is_selection(names, ratings, n_top, n_anchors, scale, active, top),
        top.len() > 0,
    ensures
        is_named(names, top[0]),
{
    let (order, chosen) = choose|order: Seq<usize>, chosen: Seq<usize>| #[trigger]
        crate::elo::are_opponents(
            names,
            ratings,
            n_top,
            n_anchors,
            scale,
            order,
            chosen,
            active,
            top,
        );
    let t = crate::elo::top_count(order, n_top);
    assert(top.len() == order.take(t).len());
    assert(order[0] < names.len());
    assert(order.take(t)[0] == order[0]);
    assert(stands_at(names, top[0], order[0] as int));
}

// --- what a pool keeps to ----------------------------------------------------

/// A model that joins has the given weights and file and no rating, and stands where it stood
/// before or at the end. The player that moves at random is there afterwards: if it was not, it
/// joins behind all others, without weights and file, and with rating zero. Every other entry
/// stays as it is.
pub proof fn models_join_without_a_rating(
    s: Seq<(Seq<char>, EntryView)>,
    name: Seq<char>,
    st: Seq<char>,
    onnx: Option<Seq<char>>,
) -> (p: int)
    ensures
        0 <= p < joined(s, name, st, onnx).len(),
        joined(s, name, st, onnx)[p] == (name, (Some(st), onnx, None::<Real>)),
        p < s.len() ==> s[p].0 == name,
        p >= s.len() ==> p == s.len() && forall|i: int|
            0 <= i < s.len() ==> (#[trigger] s[i]).0 != name,
        forall|i: int|
            0 <= i < s.len() && i != p ==> #[trigger] joined(s, name, st, onnx)[i] == s[i],
        exists|i: int|
            0 <= i < joined(s, name, st, onnx).len() && (#[trigger] joined(
                s,
                name,
                st,
                onnx,
            )[i]).0 == "random"@,
        name != "random"@ && (forall|i: int| 0 <= i < s.len() ==> (#[trigger] s[i]).0 != "random"@)
            ==> joined(s, name, st, onnx).last() == (
            "random"@,
            (None::<Seq<char>>, None::<Seq<char>>, Some(0u64)),
        ),
{
    let with = put(s, name, (Some(st), onnx, None));
    let all = joined(s, name, st, onnx);
    let p = if has_key(s, name) {
        key_place(s, name)
    } else {
        s.len() as int
    };
    if has_key(s, name) {
        assert(key_at(s, name, p));
    } else {
        assert forall|i: int| 0 <= i < s.len() implies (#[trigger] s[i]).0 != name by {
            assert(!key_at(s, name, i));
        }
    }
    if has_key(with, random_name()) {
        let i = choose|i: int| #[trigger] key_at(with, random_name(), i);
        assert(all[i].0 == "random"@);
        if name != "random"@ && (forall|i: int|
            0 <= i < s.len() ==> (#[trigger] s[i]).0 != "random"@) {
            assert(with[i].0 == "random"@);
            if i < s.len() {
                assert(s[i].0 != "random"@);
            }
        }
    } else {
        assert(all[all.len() - 1].0 == "random"@);
    }
    p
}

proof fn lemma_without(names: Seq<Seq<char>>, name: Seq<char>, n: nat)
    requires
        n <= names.len(),
    ensures
        forall|i: int|
            0 <= i < without(names, name, n).len() ==> (#[trigger] without(names, name, n)[i])
                != name && names.contains(without(names, name, n)[i]),
        forall|j: int|
            0 <= j < n && names[j] != name ==> without(names, name, n).contains(#[trigger] names[j]),
    decreases n,
{
    if n > 0 {
        lemma_without(names, name, (n - 1) as nat);
        let rest = without(names, name, (n - 1) as nat);
        let all = without(names, name, n);
        assert forall|i: int| 0 <= i < all.len() implies (#[trigger] all[i]) != name
            && names.contains(all[i]) by {
            if i < rest.len() {
                assert(all[i] == rest[i]);
            } else {
                assert(names[n - 1] == all[i]);
            }
        }
        assert forall|j: int| 0 <= j < n && names[j] != name implies all.contains(
            #[trigger] names[j],
        ) by {
            if j < n - 1 {
                assert(rest.contains(names[j]));
                let k = choose|k: int| 0 <= k < rest.len() && rest[k] == names[j];
                assert(all[k] == names[j]);
            } else {
                assert(all[all.len() - 1] == names[j]);
            }
        }
    }
}

/// A candidate plays everybody who was chosen but itself, and nobody else; where nobody is left,
/// it plays the player that moves at random.
pub proof fn candidates_play_everyone_else(active: Seq<Seq<char>>, name: Seq<char>)
    ensures
        forall|j: int|
            0 <= j < active.len() && active[j] != name ==> opponents_of(active, name).contains(
                #[trigger] active[j],
            ),
        (exists|j: int| 0 <= j < active.len() && #[trigger] active[j] != name) ==> forall|i: int|
            0 <= i < opponents_of(active, name).len() ==> (#[trigger] opponents_of(
                active,
                name,
            )[i]) != name && active.contains(opponents_of(active, name)[i]),
        (forall|j: int| 0 <= j < active.len() ==> #[trigger] active[j] == name) ==> opponents_of(
            active,
            name,
        ) == seq!["random"@],
{
    lemma_without(active, name, active.len());
    let others = without(active, name, active.len());
    if exists|j: int| 0 <= j < active.len() && #[trigger] active[j] != name {
        let j = choose|j: int| 0 <= j < active.len() && #[trigger] active[j] != name;
        assert(others.contains(active[j]));
        assert(others.len() > 0);
    } else {
        if others.len() > 0 {
            let x = others[0];
            assert(x != name && active.contains(x));
            let j = choose|j: int| 0 <= j < active.len() && active[j] == x;
            assert(active[j] == name);
        }
    }
}

/// A match is written down with a whole point for a win and half a point for a draw, and with
/// the number of its games. Earlier results stay.
pub proof fn wins_count_twice_a_draw<S: RatingScale>(
    before: Pool,
    after: Pool,
    name: Seq<char>,
    opponent: Seq<char>,
    wdl: (i32, i32, i32),
    scale: S,
)
    requires
        records(before, after, name, opponent, wdl, scale),
    ensures
        after.results@.len() == before.results@.len() + 1,
        forall|k: int|
            0 <= k < before.results@.len() ==> #[trigger] after.results@[k] == before.results@[k],
        after.results@.last().a@ == name,
        after.results@.last().b@ == opponent,
        after.results@.last().n == wdl.0 + wdl.1 + wdl.2,
        call_ensures(
            S::points,
            (&scale, (wdl.0 + wdl.0 + wdl.1) as i64),
            after.results@.last().score_a,
        ),
        after.models == before.models,
        after.served == before.served,
        after.top == before.top,
{
    assert((2 * wdl.0 + wdl.1) as i64 == (wdl.0 + wdl.0 + wdl.1) as i64);
    let r = after.results@.last();
    assert forall|k: int| 0 <= k < before.results@.len() implies #[trigger] after.results@[k]
        == before.results@[k] by {
        assert(after.results@ == before.results@.push(r));
    }
}

/// A candidate does well against random moves exactly when it has three fifths of the points,
/// where a win is worth two halves and a draw one; without any game it does not.
pub proof fn sanity_takes_three_fifths(wins: int, draws: int, losses: int)
    requires
        0 <= wins,
        0 <= draws,
        0 <= losses,
    ensures
        wins + draws + losses > 0 ==> (does_well(wins, draws, losses) <==> 5 * (2 * wins + draws)
            >= 3 * (2 * (wins + draws + losses))),
        wins + draws + losses == 0 ==> !does_well(wins, draws, losses),
{
}

/// Ratings are fitted in 400 sweeps to the results of the pool, with the player that moves at
/// random pinned at zero, and nobody else pinned.
pub proof fn ratings_are_fitted_above_the_floor<S: RatingScale>(
    pool: Pool,
    names: Seq<String>,
    ratings: Seq<Real>,
    scale: S,
) -> (pinned: Seq<Option<Real>>)
    requires
        are_ratings(pool, names, ratings, scale),
    ensures
        pinned.len() == names.len(),
        forall|i: int|
            0 <= i < names.len() ==> #[trigger] pinned[i] == if names[i]@ == "random"@ {
                Some(0u64)
            } else {
                None
            },
        fits(
            ratings,
            resolved(names, pool.results@, pool.results@.len()),
            pinned,
            400,
            scale,
        ),
        forall|i: int|
            0 <= i < names.len() && (#[trigger] names[i])@ == "random"@ ==> ratings[i] == 0,
{
    let fixed = choose|fixed: Seq<(String, Real)>|
        is_random_pin(fixed) && #[trigger] fits(
            ratings,
            resolved(names, pool.results@, pool.results@.len()),
            pins_of(names, fixed),
            FIT_ITERS as int,
            scale,
        );
    let pinned = pins_of(names, fixed);
    assert forall|i: int| 0 <= i < names.len() implies #[trigger] pinned[i] == if names[i]@
        == "random"@ {
        Some(0u64)
    } else {
        None
    } by {
        if names[i]@ == "random"@ {
            assert(crate::elo::pins_at(fixed, names[i]@, 0));
            let k = choose|k: int| #[trigger] crate::elo::pins_at(fixed, names[i]@, k);
            assert(crate::elo::pins_at(fixed, names[i]@, k));
        } else if exists|k: int| #[trigger] crate::elo::pins_at(fixed, names[i]@, k) {
            let k = choose|k: int| #[trigger] crate::elo::pins_at(fixed, names[i]@, k);
            assert(crate::elo::pins_at(fixed, names[i]@, k));
        }
    }
    pinned
}

/// Whether the leader is served. The leader is the first of the top, and no model is rated above
/// it. It is served, from its own file, where nothing is served yet, and otherwise exactly where
/// its rating exceeds the bar that the scale sets for the present rating of the served model and
/// the margin; that rating, `present`, is the one fitted now, if the served model is still there.
/// A candidate that did badly against random moves serves nobody.
pub proof fn leaders_are_served_above_the_bar<S: RatingScale>(
    before: Pool,
    after: Pool,
    names: Seq<String>,
    ratings: Seq<Real>,
    n_top: int,
    n_anchors: int,
    sane: bool,
    margin: Real,
    scale: S,
    decision: Serving,
    present: Option<Real>,
)
    requires
        0 <= n_top,
        0 <= n_anchors,
        ratings.len() == names.len() <= usize::MAX,
        distinct(names),
        decides(
            before,
            after,
            names,
            ratings,
            n_top,
            n_anchors,
            sane,
            margin,
            scale,
            Ok::<Serving, PoolError>(decision),
        ),
        before.served matches Some(m) ==> match present {
            Some(r) => exists|i: int|
                0 <= i < names.len() && (#[trigger] names[i])@ == m@ && ratings[i] == r,
            None => forall|i: int| 0 <= i < names.len() ==> (#[trigger] names[i])@ != m@,
        },
    ensures
        !sane <==> decision == Serving::Insane,
        sane && after.top@.len() == 0 <==> decision == Serving::Nobody,
        decision matches Serving::Serve(name, rating, onnx) ==> {
            &&& after.top@.len() > 0
            &&& name@ == after.top@[0]@
            &&& forall|x: int|
                0 <= x < names.len() && (#[trigger] names[x])@ != "random"@ ==> !greater(
                    ratings[x],
                    rating,
                )
            &&& forall|x: int|
                0 <= x < names.len() && (#[trigger] names[x])@ == name@ ==> ratings[x] == rating
            &&& exists|k: int|
                0 <= k < entries(after.models).len() && (#[trigger] entries(after.models)[k]).0
                    == name@ && entries(after.models)[k].1.1 == Some(onnx@)
            &&& before.served is Some ==> exists|bar: Real| #[trigger]
                call_ensures(S::threshold, (&scale, present, margin), bar) && greater(rating, bar)
        },
        decision matches Serving::Keep(name, rating, told) ==> {
            &&& after.top@.len() > 0
            &&& name@ == after.top@[0]@
            &&& forall|x: int|
                0 <= x < names.len() && (#[trigger] names[x])@ != "random"@ ==> !greater(
                    ratings[x],
                    rating,
                )
            &&& before.served is Some
            &&& told == present
            &&& exists|bar: Real| #[trigger]
                call_ensures(S::threshold, (&scale, present, margin), bar) && !greater(rating, bar)
        },
{
    if sane && after.top@.len() > 0 {
        let active = choose|active: Seq<Seq<char>>| #[trigger]
            is_selection(
                names,
                ratings,
                n_top,
                n_anchors,
                scale,
                active,
                names_of(after.top@),
            );
        let top = names_of(after.top@);
        let (best, ceiling, anchors) = anchors_are_spread_below_the_top(
            names,
            ratings,
            n_top,
            n_anchors,
            scale,
            active,
            top,
        );
        let leader = after.top@[0]@;
        assert(top[0] == leader);
        let p = best[0] as int;
        assert(names[p]@ == leader);
        lemma_places(names, leader, p);
        let lead = ratings[p];
        let others = |x: usize|
            x < names.len() && names[x as int]@ != "random"@ && !best.contains(x);
        assert forall|x: int| 0 <= x < names.len() && (#[trigger] names[x])@
            != "random"@ implies !greater(ratings[x], lead) by {
            let y = x as usize;
            if best.contains(y) {
                let j = choose|j: int| 0 <= j < best.len() && best[j] == y;
                if j > 0 {
                    assert(!greater(ratings[best[j] as int], ratings[best[0] as int]));
                }
            } else {
                assert(others(y));
                assert(!greater(ratings[y as int], ratings[best[0] as int]));
            }
        }
        assert forall|x: int| 0 <= x < names.len() && (#[trigger] names[x])@
            == leader implies ratings[x] == lead by {
            assert(names[x]@ == names[p]@);
        }
        if decision is Serve {
            let s = entries(after.models);
            assert(key_at(s, leader, key_place(s, leader)));
        }
        if let Some(m) = before.served {
            if let Some(r) = present {
                let i = choose|i: int|
                    0 <= i < names.len() && (#[trigger] names[i])@ == m@ && ratings[i] == r;
                lemma_places(names, m@, i);
            } else if is_named(names, m@) {
                let i = choose|i: int| #[trigger] stands_at(names, m@, i);
                assert(names[i]@ != m@);
            }
        }
    }
}

/// An opponent comes with the place of its own weights, and the player that moves at random with
/// none.
pub proof fn opponents_come_with_their_weights(
    s: Seq<(Seq<char>, EntryView)>,
    opp: (String, Option<String>),
    name: Seq<char>,
    i: int,
)
    requires
        is_opponent(s, opp, name),
        0 <= i < s.len(),
        s[i].0 == name,
        forall|j: int| 0 <= j < s.len() && (#[trigger] s[j]).0 == name ==> j == i,
    ensures
        opp.0@ == name,
        name == "random"@ ==> opp.1 is None,
        name != "random"@ ==> (opp.1 matches Some(place) && s[i].1.0 == Some(place@)),
{
    assert(key_at(s, name, i));
    assert(key_at(s, name, key_place(s, name)));
}

/// Fitted ratings are written down in their rounded form, each with its own model, for every
/// model of the pool; weights, files and results stay as they are.
pub proof fn every_model_is_rated_anew<S: RatingScale>(
    before: Pool,
    after: Pool,
    scale: S,
    names: Vec<String>,
    ratings: Vec<Real>,
    i: int,
)
    requires
        refits(
            before,
            after,
            scale,
            Ok::<(Vec<String>, Vec<Real>), PoolError>((names, ratings)),
        ),
        0 <= i < entries(before.models).len(),
    ensures
        names@.len() == entries(before.models).len() == entries(after.models).len(),
        ratings@.len() == names@.len(),
        names@[i]@ == entries(before.models)[i].0,
        entries(after.models)[i].0 == entries(before.models)[i].0,
        entries(after.models)[i].1.0 == entries(before.models)[i].1.0,
        entries(after.models)[i].1.1 == entries(before.models)[i].1.1,
        (entries(after.models)[i].1.2 matches Some(r) && call_ensures(
            S::rounded,
            (&scale, ratings@[i]),
            r,
        )),
        after.results == before.results,
        after.served == before.served,
        after.top == before.top,
{
    assert(names_of(names@).len() == keys_of(entries(before.models)).len());
    assert(names_of(names@)[i] == keys_of(entries(before.models))[i]);
    assert(entries(after.models)[i].0 == entries(before.models)[i].0);
}

/// How the opponents of a model are found: by the ratings so far, zero for a model that has none,
/// with so many at the top and so many anchors as were asked for; in the order of the choice, and
/// without the model itself.
pub proof fn opponents_follow_the_ratings_so_far<S: RatingScale>(
    s: Seq<(Seq<char>, EntryView)>,
    name: Seq<char>,
    n_top: int,
    n_anchors: int,
    scale: S,
    list: Vec<(String, Option<String>)>,
) -> (chosen: (Seq<String>, Seq<Real>, Seq<Seq<char>>, Seq<Seq<char>>))
    requires
        is_choice(
            s,
            name,
            n_top,
            n_anchors,
            scale,
            Ok::<Vec<(String, Option<String>)>, PoolError>(list),
        ),
    ensures
        ({
            let (names, ratings, active, top) = chosen;
            &&& names.len() == s.len()
            &&& ratings.len() == s.len()
            &&& forall|i: int|
                0 <= i < s.len() ==> (#[trigger] names[i])@ == s[i].0 && ratings[i]
                    == match s[i].1.2 {
                    Some(r) => r,
                    None => 0u64,
                }
            &&& is_selection(names, ratings, n_top, n_anchors, scale, active, top)
            &&& list@.len() == opponents_of(active, name).len()
            &&& forall|i: int|
                0 <= i < list@.len() ==> (#[trigger] list@[i]).0@ == opponents_of(active, name)[i]
        }),
{
    let (names, active, top) = choose|
        names: Seq<String>,
        active: Seq<Seq<char>>,
        top: Seq<Seq<char>>,
    |
        {
            &&& names_of(names) == keys_of(s)
            &&& #[trigger] is_selection(
                names,
                ratings_in(s),
                n_top,
                n_anchors,
                scale,
                active,
                top,
            )
            &&& list@.len() == opponents_of(active, name).len()
            &&& forall|i: int|
                0 <= i < list@.len() ==> is_opponent(
                    s,
                    #[trigger] list@[i],
                    opponents_of(active, name)[i],
                )
        };
    assert(names_of(names).len() == keys_of(s).len());
    assert forall|i: int| 0 <= i < s.len() implies (#[trigger] names[i])@ == s[i].0 by {
        assert(names_of(names)[i] == keys_of(s)[i]);
    }
    (names, ratings_in(s), active, top)
}

/// A choice that fails for want of weights names the first opponent that has none: it does not
/// move at random, no entry of that name has weights, and every opponent before it can play.
pub proof fn the_first_opponent_without_weights_is_named(
    s: Seq<(Seq<char>, EntryView)>,
    names: Seq<Seq<char>>,
    i: int,
    j: int,
)
    requires
        first_unarmed(s, names, i),
        0 <= j < i,
        forall|k: int, l: int|
            0 <= k < s.len() && 0 <= l < s.len() && (#[trigger] s[k]).0 == (#[trigger] s[l]).0
                ==> k == l,
    ensures
        names[i] != "random"@,
        forall|k: int| 0 <= k < s.len() && (#[trigger] s[k]).0 == names[i] ==> s[k].1.0 is None,
        names[j] == "random"@ || exists|k: int|
            0 <= k < s.len() && (#[trigger] s[k]).0 == names[j] && s[k].1.0 is Some,
{
    assert(lacks_weights(s, names[i]));
    assert forall|k: int| 0 <= k < s.len() && (#[trigger] s[k]).0
        == names[i] implies s[k].1.0 is None by {
        assert(key_at(s, names[i], k));
        let p = key_place(s, names[i]);
        assert(key_at(s, names[i], p));
        assert(s[p].0 == s[k].0);
    }
    assert(!lacks_weights(s, names[j]));
    if names[j] != "random"@ {
        let p = key_place(s, names[j]);
        assert(key_at(s, names[j], p));
        assert(s[p].0 == names[j]);
    }
}

} // verus!

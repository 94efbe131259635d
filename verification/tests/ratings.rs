use std::cell::RefCell;

use selfplay::dice::Dice;
use selfplay::elo::{
    check_ratings, find_name, fit_elo, random_player, rank_players, select_anchors, MatchResult,
    Pairing, RatingScale,
};
use selfplay::arith::Table;
use selfplay::evaluation::Evaluation;
use selfplay::game::Position;
use selfplay::match_play::{count_results, find_movers, play_match, MatchGame, Player, RandomPlayer};
use selfplay::pool::{is_sane, Pool, PoolError, Serving, FIT_ITERS};
use selfplay::tree::ENC_LEN;

const REG: f64 = 1e-4;

/// Bradley-Terry ratings, four hundred points to a factor of ten.
struct Elo;

impl RatingScale for Elo {
    fn improve(&self, own: u64, results: &Vec<Pairing>) -> u64 {
        let rp = f64::from_bits(own);
        let q = 10f64.ln() / 400.0;
        let (mut g, mut h) = (0.0, 0.0);
        for r in results {
            let n = r.n as f64;
            let score = f64::from_bits(r.score_a);
            let score = if r.flipped { n - score } else { score };
            let e = 1.0 / (1.0 + 10f64.powf((f64::from_bits(r.opponent) - rp) / 400.0));
            g += q * (score - n * e);
            h += q * q * n * e * (1.0 - e);
        }
        g -= REG * rp;
        h += REG;
        if h > 1e-12 {
            (rp + g / h).to_bits()
        } else {
            own
        }
    }

    fn distance(&self, rating: u64, ceiling: u64, mark: usize, marks: usize) -> u64 {
        let t = f64::from_bits(ceiling) * (mark + 1) as f64 / (marks + 1) as f64;
        (f64::from_bits(rating) - t).abs().to_bits()
    }

    fn points(&self, halves: i64) -> u64 {
        (halves as f64 / 2.0).to_bits()
    }

    fn rounded(&self, rating: u64) -> u64 {
        ((f64::from_bits(rating) * 10.0).round() / 10.0).to_bits()
    }

    fn threshold(&self, served: Option<u64>, margin: u64) -> u64 {
        (served.map_or(-1e9, f64::from_bits) + f64::from_bits(margin)).to_bits()
    }
}

fn strings(words: &[&str]) -> Vec<String> {
    words.iter().map(|w| w.to_string()).collect()
}

fn bits(xs: &[f64]) -> Vec<u64> {
    xs.iter().map(|x| x.to_bits()).collect()
}

fn result(a: &str, b: &str, score_a: f64, n: i64) -> MatchResult {
    MatchResult { a: a.to_string(), b: b.to_string(), score_a: score_a.to_bits(), n }
}

// --- ratings -----------------------------------------------------------------

// A clean sweep stays finite, and the order matches strength.
#[test]
fn elo_orders_by_strength() {
    let names: Vec<String> = ["random", "weak", "strong"].iter().map(|s| s.to_string()).collect();
    let games = vec![
        result("weak", "random", 80.0, 100),
        result("strong", "random", 95.0, 100),
        result("strong", "weak", 70.0, 100),
    ];
    let fixed = vec![("random".to_string(), 0.0f64.to_bits())];
    let (ratings, _) = fit_elo(&names, &games, &fixed, 400, &Elo);
    let r = |name: &str| {
        let at = find_name(&names, &name.to_string()).unwrap();
        f64::from_bits(ratings[at])
    };
    assert!((r("random")).abs() < 1e-9);
    assert!(r("strong") > r("weak"), "strong {} should beat weak {}", r("strong"), r("weak"));
    assert!(r("weak") > 0.0, "weak {} should beat random", r("weak"));
}

#[test]
fn a_clean_sweep_stays_finite() {
    let names = strings(&["random", "a"]);
    let fixed = vec![("random".to_string(), 0)];
    let games = vec![result("a", "random", 100.0, 100)];
    let r = f64::from_bits(fit_elo(&names, &games, &fixed, FIT_ITERS, &Elo).0[1]);
    assert!(r.is_finite() && r > 400.0, "{}", r);
}

#[test]
fn results_without_games_do_not_count() {
    let names = strings(&["random", "a", "b"]);
    let fixed = vec![("random".to_string(), 0)];
    let games = vec![result("a", "random", 7.0, 0), result("a", "b", 3.0, -1)];
    assert_eq!(fit_elo(&names, &games, &fixed, 400, &Elo).0, vec![0, 0, 0]);
    let mut more = vec![result("a", "random", 6.0, 10), result("nobody", "b", 3.0, 0)];
    let with = fit_elo(&names, &more, &fixed, 400, &Elo).0;
    more.pop();
    assert_eq!(fit_elo(&names, &more, &fixed, 400, &Elo).0, with);
}

#[test]
fn pinned_players_keep_their_rating() {
    let names = strings(&["random", "a"]);
    let fixed = vec![("random".to_string(), 100.0f64.to_bits())];
    let games = vec![result("random", "a", 50.0, 100)];
    let (r, others) = fit_elo(&names, &games, &fixed, 400, &Elo);
    assert!(others.is_empty());
    assert_eq!(r[0], 100.0f64.to_bits());
    let a = f64::from_bits(r[1]);
    assert!(a > 0.0 && a < 100.0, "{}", a);
    assert_eq!(fit_elo(&names, &games, &fixed, 0, &Elo).0[1], 0);
}

#[test]
fn ratings_that_cannot_be_spread_are_bad() {
    let pick = |ratings: &[(&str, f64)]| {
        let pool = pool_of(ratings);
        pool.opponents(&"new".to_string(), 1, 1, &Elo).map(|list| list.len())
    };
    assert!(matches!(pick(&[("a", 3.0), ("b", 2.0), ("c", 1.0)]), Ok(3)));
    assert!(matches!(pick(&[("a", f64::INFINITY), ("b", 2.0), ("c", 1.0)]), Ok(3)));
    let all = [("a", f64::INFINITY), ("b", f64::INFINITY), ("c", 1.0)];
    assert!(matches!(pick(&all), Err(PoolError::BadRating)));
    // Who is the only one left is picked at any distance.
    assert!(matches!(pick(&[("a", f64::INFINITY), ("b", f64::INFINITY)]), Ok(3)));
}

#[test]
fn the_order_in_a_result_does_not_matter() {
    let names = strings(&["random", "a", "b", "idle"]);
    let fixed = vec![("random".to_string(), 0)];
    let games = vec![
        result("a", "random", 7.5, 10),
        result("b", "a", 4.0, 12),
        result("random", "b", 0.5, 6),
    ];
    let turned = vec![
        result("random", "a", 2.5, 10),
        result("b", "a", 4.0, 12),
        result("b", "random", 5.5, 6),
    ];
    let ratings = fit_elo(&names, &games, &fixed, 400, &Elo).0;
    assert_eq!(fit_elo(&names, &turned, &fixed, 400, &Elo).0, ratings);
    assert_eq!(ratings[3], 0);
}

#[test]
fn pins_that_are_not_listed_come_back() {
    let names = strings(&["a", "b"]);
    let fixed = vec![
        ("random".to_string(), 7.0f64.to_bits()),
        ("b".to_string(), 50.0f64.to_bits()),
        ("old".to_string(), 9.0f64.to_bits()),
    ];
    let games = vec![result("a", "b", 5.0, 10)];
    let (r, others) = fit_elo(&names, &games, &fixed, 400, &Elo);
    assert_eq!(r.len(), 2);
    assert_eq!(r[1], 50.0f64.to_bits());
    assert_eq!(
        others,
        vec![
            ("random".to_string(), 7.0f64.to_bits()),
            ("old".to_string(), 9.0f64.to_bits()),
        ],
    );
}

#[test]
fn players_are_ranked_best_first() {
    let names = strings(&["a", "random", "b", "c", "d"]);
    let ratings = bits(&[10.0, 0.0, 30.0, 10.0, -5.0]);
    assert_eq!(rank_players(&names, &ratings, true), vec![2, 0, 3, 1, 4]);
    assert_eq!(rank_players(&names, &ratings, false), vec![2, 0, 3, 4]);
    assert!(check_ratings(&ratings));
    assert!(!check_ratings(&bits(&[1.0, f64::NAN])));
}

#[test]
fn opponents_are_the_best_the_floor_and_a_spread() {
    let names = strings(&["random", "a", "b", "c", "d", "e"]);
    let ratings = bits(&[0.0, 400.0, 300.0, 210.0, 190.0, 90.0]);
    let (active, top) = select_anchors(&names, &ratings, 2, 2, &Elo);
    assert_eq!(top, strings(&["a", "b"]));
    assert_eq!(active, strings(&["a", "b", "random", "e", "c"]));
    let mut seen = active.clone();
    seen.sort();
    seen.dedup();
    assert_eq!(seen.len(), active.len());
}

#[test]
fn without_a_top_the_best_is_the_ceiling() {
    let names = strings(&["a", "b", "random"]);
    let ratings = bits(&[100.0, 40.0, 0.0]);
    let (active, top) = select_anchors(&names, &ratings, 0, 1, &Elo);
    assert_eq!(top, strings(&[]));
    assert_eq!(active, strings(&["random", "b"]));
    let (active, _) = select_anchors(&names, &ratings, 0, 9, &Elo);
    assert_eq!(active.len(), 3);
    let (active, top) = select_anchors(&names, &ratings, 9, 9, &Elo);
    assert_eq!((active, top), (strings(&["a", "b", "random"]), strings(&["a", "b"])));
}

// --- the pool ----------------------------------------------------------------

fn pool_of(models: &[(&str, f64)]) -> Pool {
    let mut pool = Pool::new();
    for (name, rating) in models {
        let st = format!("{}.safetensors", name);
        let onnx = format!("{}.onnx", name);
        pool.set_model(name.to_string(), (Some(st), Some(onnx), Some(rating.to_bits())));
    }
    pool
}

#[test]
fn models_keep_the_order_in_which_they_came() {
    let mut pool = pool_of(&[("z", 1.0), ("a", 2.0), ("m", 3.0)]);
    pool.set_model("a".to_string(), (None, None, None));
    assert_eq!(pool.names(), strings(&["z", "a", "m"]));
    assert_eq!(pool.model(&"a".to_string()), Some((None, None, None)));
    assert_eq!(pool.model(&"m".to_string()).unwrap().2, Some(3.0f64.to_bits()));
    assert_eq!(pool.model(&"nobody".to_string()), None);
}

#[test]
fn registering_adds_the_candidate_and_the_floor() {
    let mut pool = Pool::new();
    pool.register("snap".to_string(), "snap.st".to_string(), Some("snap.onnx".to_string()));
    assert_eq!(pool.names(), strings(&["snap", "random"]));
    let want = (Some("snap.st".to_string()), Some("snap.onnx".to_string()), None);
    assert_eq!(pool.model(&"snap".to_string()), Some(want));
    assert_eq!(pool.model(&random_player()), Some((None, None, Some(0))));
    pool.set_model(random_player(), (None, None, Some(1.0f64.to_bits())));
    pool.register("next".to_string(), "n.st".to_string(), None);
    assert_eq!(pool.names(), strings(&["snap", "random", "next"]));
    assert_eq!(pool.model(&random_player()).unwrap().2, Some(1.0f64.to_bits()));
    assert_eq!(pool.ratings().1, bits(&[0.0, 1.0, 0.0]));
}

#[test]
fn a_lone_candidate_meets_the_floor() {
    let mut pool = Pool::new();
    pool.register("snap".to_string(), "snap.st".to_string(), None);
    let opponents = pool.opponents(&"snap".to_string(), 2, 3, &Elo);
    assert!(matches!(opponents, Ok(ref o) if *o == vec![("random".to_string(), None)]));
}

#[test]
fn a_candidate_does_not_meet_itself() {
    let mut pool = pool_of(&[("a", 300.0), ("b", 200.0), ("c", 100.0)]);
    pool.register("a".to_string(), "a.st".to_string(), None);
    match pool.opponents(&"a".to_string(), 2, 3, &Elo) {
        Ok(o) => {
            let names: Vec<String> = o.iter().map(|(n, _)| n.clone()).collect();
            assert_eq!(names, strings(&["b", "c", "random"]));
            assert_eq!(o[0].1, Some("b.safetensors".to_string()));
            assert_eq!(o[2].1, None);
        }
        Err(_) => panic!("opponents expected"),
    }
}

#[test]
fn an_opponent_needs_weights() {
    let mut pool = Pool::new();
    pool.set_model("bare".to_string(), (None, None, Some(9.0f64.to_bits())));
    pool.register("snap".to_string(), "snap.st".to_string(), None);
    let out = pool.opponents(&"snap".to_string(), 2, 3, &Elo);
    assert!(matches!(out, Err(PoolError::NoWeights(ref n)) if n == "bare"));
}

#[test]
fn ratings_have_to_be_numbers() {
    let mut pool = pool_of(&[("a", f64::NAN)]);
    pool.register("snap".to_string(), "snap.st".to_string(), None);
    let out = pool.opponents(&"snap".to_string(), 2, 3, &Elo);
    assert!(matches!(out, Err(PoolError::BadRating)));
}

#[test]
fn matches_are_recorded_with_half_points() {
    let mut pool = pool_of(&[("a", 0.0), ("b", 0.0)]);
    pool.record_match(&"a".to_string(), &"b".to_string(), 3, 5, 2, &Elo);
    assert_eq!(pool.results.len(), 1);
    let r = &pool.results[0];
    assert_eq!((r.a.as_str(), r.b.as_str(), r.n), ("a", "b", 10));
    assert_eq!(f64::from_bits(r.score_a), 5.5);
}

#[test]
fn refitting_rates_every_model() {
    let mut pool = pool_of(&[("a", 0.0), ("b", 0.0)]);
    pool.register("b".to_string(), "b.st".to_string(), None);
    pool.record_match(&"a".to_string(), &random_player(), 9, 0, 1, &Elo);
    pool.record_match(&"b".to_string(), &random_player(), 5, 0, 5, &Elo);
    let (names, ratings) = match pool.refit(&Elo) {
        Ok(out) => out,
        Err(_) => panic!("ratings expected"),
    };
    assert_eq!(names, strings(&["a", "b", "random"]));
    let r: Vec<f64> = ratings.iter().map(|&x| f64::from_bits(x)).collect();
    assert!(r[0] > 100.0 && r[1].abs() < 1.0 && r[2] == 0.0, "{:?}", r);
    let written = f64::from_bits(pool.model(&"a".to_string()).unwrap().2.unwrap());
    assert_eq!(written, (r[0] * 10.0).round() / 10.0);
}

#[test]
fn a_result_has_to_name_models_of_the_pool() {
    let mut pool = pool_of(&[("a", 0.0)]);
    pool.results.push(result("a", "ghost", 1.0, 2));
    assert!(matches!(pool.fit(&Elo), Err(PoolError::UnknownModel)));
    assert!(matches!(pool.refit(&Elo), Err(PoolError::UnknownModel)));
}

#[test]
fn sanity_asks_for_three_fifths() {
    for w in 0..40i32 {
        for d in 0..40i32 {
            for l in 0..20i32 {
                let n = w + d + l;
                let c = (w as f64 + 0.5 * d as f64) / n.max(1) as f64;
                assert_eq!(is_sane(w, d, l), c >= 0.6, "{} {} {}", w, d, l);
            }
        }
    }
    assert!(is_sane(3, 0, 2));
    assert!(!is_sane(0, 0, 0));
    assert!(is_sane(i32::MAX, 0, 0));
}

fn decide(pool: &mut Pool, sane: bool, margin: f64) -> Result<Serving, PoolError> {
    let (names, ratings) = pool.ratings();
    pool.decide(&names, &ratings, 2, 3, sane, margin.to_bits(), &Elo)
}

#[test]
fn the_leader_is_served_when_nothing_is() {
    let mut pool = pool_of(&[("a", 100.0), ("b", 200.0)]);
    match decide(&mut pool, true, 35.0) {
        Ok(Serving::Serve(name, rating, onnx)) => {
            assert_eq!((name.as_str(), onnx.as_str()), ("b", "b.onnx"));
            assert_eq!(rating, 200.0f64.to_bits());
        }
        _ => panic!("the leader is to be served"),
    }
    assert_eq!(pool.top, strings(&["b", "a"]));
    pool.mark_served("b".to_string(), 200.04f64.to_bits(), &Elo);
    assert_eq!(pool.served, Some("b".to_string()));
    assert_eq!(pool.served_rating, Some(200.0f64.to_bits()));
}

#[test]
fn the_leader_has_to_clear_the_margin() {
    let mut pool = pool_of(&[("a", 100.0), ("b", 135.0)]);
    pool.served = Some("a".to_string());
    match decide(&mut pool, true, 35.0) {
        Ok(Serving::Keep(name, rating, now)) => {
            assert_eq!(name, "b");
            assert_eq!((rating, now), (135.0f64.to_bits(), Some(100.0f64.to_bits())));
        }
        _ => panic!("the served model is to be kept"),
    }
    assert!(matches!(decide(&mut pool, true, 34.9), Ok(Serving::Serve(ref n, _, _)) if n == "b"));
    pool.served = Some("gone".to_string());
    assert!(matches!(decide(&mut pool, true, 35.0), Ok(Serving::Serve(ref n, _, _)) if n == "b"));
}

#[test]
fn nothing_is_served_of_insane_candidates_or_empty_pools() {
    let mut pool = pool_of(&[("a", 100.0)]);
    assert!(matches!(decide(&mut pool, false, 35.0), Ok(Serving::Insane)));
    let mut pool = pool_of(&[("random", 0.0)]);
    assert!(matches!(decide(&mut pool, true, 35.0), Ok(Serving::Nobody)));
}

#[test]
fn the_leader_needs_a_file_to_serve() {
    let mut pool = Pool::new();
    pool.set_model("a".to_string(), (None, None, Some(1.0f64.to_bits())));
    let out = decide(&mut pool, true, 35.0);
    assert!(matches!(out, Err(PoolError::NothingToServe(ref n)) if n == "a"));
}

#[test]
fn serving_follows_the_rating_of_the_leader() {
    // The higher the leader, the sooner it is served.
    let mut served_before = false;
    for lead in [100.0, 120.0, 140.0, 160.0] {
        let mut pool = pool_of(&[("a", 90.0), ("b", lead)]);
        pool.served = Some("a".to_string());
        let serves = matches!(decide(&mut pool, true, 35.0), Ok(Serving::Serve(_, _, _)));
        assert!(serves || !served_before);
        served_before = serves;
    }
    assert!(served_before);
}

// --- evaluations -------------------------------------------------------------

fn begin(pool: &mut Pool) -> Evaluation {
    let onnx = Some("snap.onnx".to_string());
    match Evaluation::begin(pool, "snap".to_string(), "snap.st".to_string(), onnx, 2, 3, &Elo) {
        Ok(e) => e,
        Err(_) => panic!("an evaluation expected"),
    }
}

#[test]
fn a_candidate_plays_its_opponents_one_after_the_other() {
    let mut pool = pool_of(&[("a", 300.0)]);
    let mut e = begin(&mut pool);
    let mut met = Vec::new();
    while let Some((name, weights)) = e.next_opponent().cloned() {
        met.push((name, weights));
        e.record(&mut pool, 6, 2, 2, &Elo);
    }
    assert_eq!(met, vec![("a".to_string(), Some("a.safetensors".to_string())), ("random".to_string(), None)]);
    assert_eq!(e.against_random, Some((6, 2, 2)));
    assert_eq!(pool.results.len(), 2);
    match e.conclude(&mut pool, 2, 3, 35.0f64.to_bits(), &Elo) {
        Ok((names, ratings, Serving::Serve(leader, _, onnx))) => {
            assert_eq!(names, strings(&["a", "snap", "random"]));
            assert_eq!(ratings[2], 0);
            assert_eq!((leader.as_str(), onnx.as_str()), ("snap", "snap.onnx"));
        }
        _ => panic!("the candidate is to be served"),
    }
}

#[test]
fn a_candidate_that_loses_to_random_moves_serves_nothing() {
    let mut pool = pool_of(&[("a", 300.0)]);
    let mut e = begin(&mut pool);
    e.record(&mut pool, 9, 0, 1, &Elo);
    e.record(&mut pool, 5, 1, 4, &Elo);
    assert!(e.next_opponent().is_none());
    let out = e.conclude(&mut pool, 2, 3, 35.0f64.to_bits(), &Elo);
    assert!(matches!(out, Ok((_, _, Serving::Insane))));
    assert_eq!(pool.served, None);
    assert_eq!(pool.top, strings(&["snap", "a"]));
}

#[test]
fn an_evaluation_fails_with_its_pool() {
    let mut pool = pool_of(&[("a", f64::NAN)]);
    let out = Evaluation::begin(&mut pool, "s".to_string(), "s.st".to_string(), None, 2, 3, &Elo);
    assert!(matches!(out, Err(PoolError::BadRating)));
    let mut pool = pool_of(&[("a", 1.0)]);
    let e = begin(&mut pool);
    pool.results.push(result("ghost", "a", 1.0, 2));
    assert!(matches!(e.conclude(&mut pool, 2, 3, 0, &Elo), Err(PoolError::UnknownModel)));
    let out = e.conclude_ratings(&mut pool, 2, 3, &Elo);
    assert!(matches!(out, Err(PoolError::UnknownModel)));
}

#[test]
fn ratings_alone_serve_nothing() {
    let mut pool = pool_of(&[("a", 300.0)]);
    let mut e = begin(&mut pool);
    e.record(&mut pool, 9, 0, 1, &Elo);
    e.record(&mut pool, 10, 0, 0, &Elo);
    let (names, ratings) = e.conclude_ratings(&mut pool, 1, 3, &Elo).ok().unwrap();
    assert_eq!(names, strings(&["a", "snap", "random"]));
    assert!(f64::from_bits(ratings[1]) > f64::from_bits(ratings[0]));
    assert_eq!(pool.top, strings(&["snap"]));
    assert_eq!((pool.served, pool.served_rating), (None, None));
    let mut pool = pool_of(&[("a", 1.0)]);
    let e = begin(&mut pool);
    pool.results.push(result("a", "snap", f64::NAN, 2));
    let out = e.conclude_ratings(&mut pool, 2, 3, &Elo);
    assert!(matches!(out, Err(PoolError::BadRating)));
}

#[test]
fn the_rating_written_down_for_the_served_model_decides_nothing() {
    let decide = |frozen: Option<u64>| {
        let mut pool = pool_of(&[("a", 300.0)]);
        pool.served = Some("a".to_string());
        pool.served_rating = frozen;
        let mut e = begin(&mut pool);
        e.record(&mut pool, 9, 0, 1, &Elo);
        e.record(&mut pool, 10, 0, 0, &Elo);
        let (names, ratings, decision) =
            e.conclude(&mut pool, 2, 3, 35.0f64.to_bits(), &Elo).ok().unwrap();
        assert_eq!(pool.served_rating, frozen);
        (names, ratings, decision, pool.top)
    };
    let plain = decide(None);
    assert!(matches!(plain.2, Serving::Serve(..)));
    for frozen in [-1e9f64, 300.0, 1e9, f64::NAN] {
        assert!(decide(Some(frozen.to_bits())) == plain);
    }
}

// --- dice --------------------------------------------------------------------

#[test]
fn dice_repeat_themselves_from_a_seed() {
    let rolls = |seed: u64| {
        let mut dice = Dice::new(seed);
        (0..100).map(|_| dice.below(6)).collect::<Vec<usize>>()
    };
    assert_eq!(rolls(3), rolls(3));
    assert_ne!(rolls(3), rolls(4));
    assert!(rolls(3).iter().all(|&k| k < 6));
    for face in 0..6 {
        assert!(rolls(3).contains(&face));
    }
}

// --- matches -----------------------------------------------------------------

fn position(ply: usize, length: usize, result: i8) -> Position {
    let over = ply >= length;
    Position {
        legal: if over { Vec::new() } else { vec![(10, 1), (20, 2)] },
        enc: vec![0; ENC_LEN],
        white_to_move: ply % 2 == 0,
        outcome: if over { Some(result) } else { None },
        terminal: if over { Some(0) } else { None },
    }
}

/// Boards on which a game has `length` plies; the first move of White decides it.
struct Boards {
    length: usize,
}

impl Boards {
    fn new(length: usize) -> Self {
        Boards { length }
    }

    fn at(&self, moves: &[u16]) -> Position {
        let result = match moves.first() {
            Some(10) => 1,
            Some(20) => -1,
            _ => 0,
        };
        position(moves.len(), self.length, result)
    }
}

impl Table for Boards {
    fn start(&self, _seat: u64, _seed: Option<u64>) -> Position {
        self.at(&[])
    }

    fn look(&self, _seat: u64, line: &Vec<u16>, _handles: &Vec<u16>) -> Position {
        self.at(line)
    }

    fn play(&self, _seat: u64, line: &Vec<u16>) -> Position {
        self.at(line)
    }

    fn noise(&self, _seat: u64, _line: &Vec<u16>, n: usize) -> Vec<u64> {
        vec![0; n]
    }

    fn draw(&self, _seat: u64, _line: &Vec<u16>, _c: &Vec<u32>, _t: u64) -> (u64, Vec<u64>) {
        (0, Vec::new())
    }
}

struct Always(u16);

impl Player for Always {
    fn select_moves(&self, _games: &Vec<MatchGame>, group: &Vec<usize>, _opening: usize) -> Vec<u16> {
        vec![self.0; group.len()]
    }
}

#[test]
fn players_take_turns_with_the_colors() {
    // White wins with 10 and loses with 20.
    assert_eq!(play_match(&Always(10), &Always(10), 5, 0, 256, &Boards::new(4)), Some((3, 0, 2)));
    assert_eq!(play_match(&Always(10), &Always(20), 6, 0, 256, &Boards::new(4)), Some((6, 0, 0)));
    assert_eq!(play_match(&Always(20), &Always(10), 6, 0, 256, &Boards::new(4)), Some((0, 0, 6)));
}

#[test]
fn moves_are_played_one_after_the_other() {
    /// Tells the lines that it was asked about.
    struct Watcher(RefCell<Vec<Vec<u16>>>);
    impl Player for Watcher {
        fn select_moves(&self, games: &Vec<MatchGame>, group: &Vec<usize>, _o: usize) -> Vec<u16> {
            for &gi in group {
                assert_eq!(games[gi].ply, games[gi].line.len());
                self.0.borrow_mut().push(games[gi].line.clone());
            }
            vec![20; group.len()]
        }
    }
    let watcher = Watcher(RefCell::new(Vec::new()));
    assert_eq!(play_match(&Always(10), &watcher, 1, 0, 256, &Boards::new(4)), Some((1, 0, 0)));
    assert_eq!(*watcher.0.borrow(), vec![vec![10], vec![10, 20, 10]]);
}

#[test]
fn swapping_the_players_swaps_wins_and_losses() {
    for (x, y) in [(10, 20), (10, 10), (20, 20), (10, 30), (30, 20)] {
        let one = play_match(&Always(x), &Always(y), 6, 0, 256, &Boards::new(4)).unwrap();
        let other = play_match(&Always(y), &Always(x), 6, 0, 256, &Boards::new(4)).unwrap();
        assert_eq!(other, (one.2, one.1, one.0));
    }
}

#[test]
fn a_match_counts_every_game_once() {
    for n in 0..9usize {
        let (w, d, l) = play_match(&Always(10), &Always(10), n, 0, 256, &Boards::new(3)).unwrap();
        assert_eq!((w + d + l) as usize, n);
    }
}

#[test]
fn long_games_of_a_match_are_drawn() {
    assert_eq!(play_match(&Always(10), &Always(20), 4, 0, 3, &Boards::new(9)), Some((0, 4, 0)));
}

#[test]
fn a_player_has_to_move_in_every_game() {
    struct Lazy;
    impl Player for Lazy {
        fn select_moves(&self, _g: &Vec<MatchGame>, _group: &Vec<usize>, _o: usize) -> Vec<u16> {
            Vec::new()
        }
    }
    assert_eq!(play_match(&Lazy, &Always(10), 2, 0, 9, &Boards::new(4)), None);
    assert_eq!(play_match(&Always(10), &Lazy, 2, 0, 9, &Boards::new(4)), None);
    // Who is never asked cannot fall short.
    assert_eq!(play_match(&Lazy, &Lazy, 0, 0, 9, &Boards::new(4)), Some((0, 0, 0)));
    assert_eq!(play_match(&Always(10), &Lazy, 1, 0, 1, &Boards::new(4)), Some((0, 1, 0)));
}

fn finished(a_is_white: bool, rw: i8) -> MatchGame {
    let line = vec![10, 10, 10];
    MatchGame { position: position(0, 0, rw), line, a_is_white, done: true, ply: 3, rw }
}

#[test]
fn results_are_counted_from_the_first_player() {
    let games = vec![
        finished(true, 1),
        finished(false, 1),
        finished(true, 0),
        finished(false, -1),
        finished(true, -1),
    ];
    assert_eq!(count_results(&games), (2, 1, 2));
    let other: Vec<MatchGame> = games.iter().map(|g| finished(!g.a_is_white, g.rw)).collect();
    assert_eq!(count_results(&other), (2, 1, 2));
    let one_sided = vec![finished(true, 1), finished(true, 1), finished(false, 0)];
    assert_eq!(count_results(&one_sided), (2, 1, 0));
    let swapped: Vec<MatchGame> = one_sided.iter().map(|g| finished(!g.a_is_white, g.rw)).collect();
    assert_eq!(count_results(&swapped), (0, 1, 2));
}

#[test]
fn movers_are_the_games_where_it_is_their_turn() {
    let game = |ply: usize, a_is_white: bool, done: bool| MatchGame {
        position: position(ply, 9, 0),
        line: vec![10; ply],
        a_is_white,
        done,
        ply,
        rw: 0,
    };
    let games = vec![game(0, true, false), game(0, false, false), game(1, true, false), game(1, false, true)];
    assert_eq!(find_movers(&games, true), vec![0]);
    assert_eq!(find_movers(&games, false), vec![1, 2]);
}

#[test]
fn a_random_player_makes_legal_moves() {
    let p = position(0, 4, 0);
    let positions = vec![&p; 50];
    let mut dice = Dice::new(8);
    let moves = RandomPlayer.select_moves(&positions, &mut dice);
    assert_eq!(moves.len(), 50);
    assert!(moves.iter().all(|m| *m == 10 || *m == 20));
    assert!(moves.contains(&10) && moves.contains(&20));
    assert_eq!(moves, RandomPlayer.select_moves(&positions, &mut Dice::new(8)));
}

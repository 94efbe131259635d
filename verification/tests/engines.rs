use std::cell::RefCell;
use std::sync::Arc;

use selfplay::arith::{Arithmetic, Evaluator, Table};
use selfplay::batch::{gather_leaves, roots_to_expand, run_cycle, run_simulations, Halt};
use selfplay::buckets::{BucketState, Offer};
use selfplay::consumer::{blank_answer, route, EvalRequest, Intake, ToConsumer};
use selfplay::engine::MctsEngine;
use selfplay::game::{Game, Position, Row};
use selfplay::inflight::{spawn_fresh, worker_turn, Advance, Config, InFlight};
use selfplay::match_play::net_moves;
use selfplay::queue::{requeue_scattered, Queue, Queued};
use selfplay::ring::{RingError, RingOffer, RingState};
use selfplay::seeds::{game_seed, game_uid, slot_seed};
use selfplay::shards::{deal_slots, FinishedGame, RunConfig, Shard, Slot};
use selfplay::tree::{Node, ENC_LEN, POLICY_SIZE};

struct Machine;

impl Arithmetic for Machine {
    fn quotient(&self, sum: u64, visits: u32) -> u64 {
        (f64::from_bits(sum) / visits as f64).to_bits()
    }

    fn score(&self, parent_visits: u32, child: &Node) -> u64 {
        let q = f64::from_bits(child.q(self));
        let sqrt_parent = (parent_visits as f64).sqrt();
        let prior = f64::from_bits(child.prior);
        (-q + 1.5 * prior * sqrt_parent / (1.0 + child.visit_count as f64)).to_bits()
    }

    fn softmax(&self, logits: &Vec<u32>) -> Vec<u64> {
        let xs: Vec<f64> = logits.iter().map(|&x| f32::from_bits(x) as f64).collect();
        let top = xs.iter().cloned().fold(f64::NEG_INFINITY, f64::max);
        let exps: Vec<f64> = xs.iter().map(|x| (x - top).exp()).collect();
        let total: f64 = exps.iter().sum();
        exps.iter().map(|e| (if total > 0.0 { e / total } else { *e }).to_bits()).collect()
    }

    fn plus(&self, x: u64, y: u64) -> u64 {
        (f64::from_bits(x) + f64::from_bits(y)).to_bits()
    }

    fn mix(&self, prior: u64, noise: u64) -> u64 {
        (0.75 * f64::from_bits(prior) + 0.25 * f64::from_bits(noise)).to_bits()
    }

    fn temper(&self, steps: usize) -> u64 {
        (1.0 + (steps as f64 / 40.0) * (0.35 - 1.0)).to_bits()
    }

    fn shares(&self, counts: &Vec<u32>, temperature: u64) -> Option<Vec<u32>> {
        let t = f64::from_bits(temperature);
        let powered: Vec<f64> = counts.iter().map(|&c| (c as f64).powf(1.0 / t)).collect();
        let total: f64 = powered.iter().sum();
        if total <= 0.0 {
            return None;
        }
        Some(powered.iter().map(|p| ((p / total) as f32).to_bits()).collect())
    }
}

/// Boards of a game with three moves in every position. It ends after `length` plies, and
/// `longer` plies later with each further seat; White wins if the second move was made an odd
/// number of times.
struct Boards {
    length: usize,
    longer: usize,
}

impl Boards {
    fn new(length: usize) -> Self {
        Boards { length, longer: 0 }
    }

    fn at(&self, seat: u64, moves: &[u16]) -> Position {
        let over = moves.len() >= self.length + self.longer * seat as usize;
        let mut enc = vec![0; ENC_LEN];
        enc[0] = (moves.len() as f32).to_bits();
        enc[1] = (seat as f32).to_bits();
        enc[2] = (moves.iter().map(|&m| m as u32).sum::<u32>() as f32).to_bits();
        let white_wins = moves.iter().filter(|&&m| m == 12).count() % 2 == 1;
        let white = moves.len() % 2 == 0;
        Position {
            legal: if over { Vec::new() } else { vec![(11, 100), (12, 200), (13, 300)] },
            enc,
            white_to_move: white,
            outcome: if over { Some(if white_wins { 1 } else { -1 }) } else { None },
            terminal: if over {
                Some((if white_wins == white { 1.0f64 } else { -1.0 }).to_bits())
            } else {
                None
            },
        }
    }
}

impl Table for Boards {
    fn start(&self, seat: u64, _seed: Option<u64>) -> Position {
        self.at(seat, &[])
    }

    fn look(&self, seat: u64, line: &Vec<u16>, handles: &Vec<u16>) -> Position {
        let mut all = line.clone();
        all.extend(handles);
        self.at(seat, &all)
    }

    fn play(&self, seat: u64, line: &Vec<u16>) -> Position {
        self.at(seat, line)
    }

    fn noise(&self, _seat: u64, _line: &Vec<u16>, n: usize) -> Vec<u64> {
        (0..n).map(|_| (1.0 / n as f64).to_bits()).collect()
    }

    fn draw(
        &self,
        _seat: u64,
        _line: &Vec<u16>,
        counts: &Vec<u32>,
        temperature: u64,
    ) -> (u64, Vec<u64>) {
        let t = f64::from_bits(temperature);
        let mut acc = 0.0;
        let mut cumulative = Vec::new();
        for &c in counts {
            acc += (c as f64).powf(1.0 / t);
            cumulative.push(f64::to_bits(acc));
        }
        (f64::to_bits(0.5 * acc), cumulative)
    }
}

/// A network that judges each position by itself.
struct Net {
    batches: RefCell<Vec<usize>>,
}

impl Net {
    fn new() -> Self {
        Net { batches: RefCell::new(Vec::new()) }
    }
}

impl Evaluator for Net {
    fn eval(&self, enc: &Vec<u32>, m: usize) -> (Vec<u32>, Vec<u64>) {
        assert_eq!(enc.len(), m * ENC_LEN);
        self.batches.borrow_mut().push(m);
        let mut logits = vec![0u32; m * POLICY_SIZE];
        let mut values = Vec::new();
        for r in 0..m {
            let row = &enc[r * ENC_LEN..(r + 1) * ENC_LEN];
            let x: f32 = row[..3].iter().map(|&b| f32::from_bits(b)).sum();
            logits[r * POLICY_SIZE + 100] = (x.sin()).to_bits();
            logits[r * POLICY_SIZE + 200] = (x.cos()).to_bits();
            values.push(((x as f64) * 0.7).sin().to_bits());
        }
        (logits, values)
    }
}

fn visits(g: &Game) -> Vec<u32> {
    g.arena.iter().map(|n| n.visit_count).collect()
}

fn games(board: &Boards, seats: &[u64]) -> Vec<Game> {
    seats.iter().map(|&s| Game::from_board(board.start(s, None))).collect()
}

// --- batched search ----------------------------------------------------------

#[test]
fn a_cycle_visits_each_root_once_per_simulation() {
    let board = Boards::new(9);
    let net = Net::new();
    let seats = vec![4, 7];
    let mut gs = games(&board, &seats);
    assert_eq!(roots_to_expand(&gs), vec![0, 1]);
    assert!(run_cycle(&mut gs, &seats, 25, false, &Machine, &board, &net).is_ok());
    for g in &gs {
        assert_eq!(g.arena[0].visit_count, 25);
        let below: u32 = g.arena[0].children.iter().map(|&(_, c)| g.arena[c as usize].visit_count).sum();
        assert_eq!(below, 25);
    }
    assert_eq!(net.batches.borrow().len(), 26);
    assert!(net.batches.borrow().iter().all(|&m| m == 2));
    assert!(roots_to_expand(&gs).is_empty());
}

#[test]
fn games_in_a_batch_do_not_mix() {
    let board = Boards::new(5);
    let seats = vec![1, 2, 3];
    let mut together = games(&board, &seats);
    assert!(run_cycle(&mut together, &seats, 40, true, &Machine, &board, &Net::new()).is_ok());
    for (i, &s) in seats.iter().enumerate() {
        let mut alone = games(&board, &[s]);
        assert!(run_cycle(&mut alone, &vec![s], 40, true, &Machine, &board, &Net::new()).is_ok());
        assert_eq!(visits(&alone[0]), visits(&together[i]));
        let sums: Vec<u64> = alone[0].arena.iter().map(|n| n.value_sum).collect();
        assert_eq!(sums, together[i].arena.iter().map(|n| n.value_sum).collect::<Vec<u64>>());
    }
}

#[test]
fn finished_games_are_left_alone() {
    let board = Boards::new(5);
    let seats = vec![1, 2];
    let mut gs = games(&board, &seats);
    gs[0].done = true;
    assert!(run_cycle(&mut gs, &seats, 5, false, &Machine, &board, &Net::new()).is_ok());
    assert_eq!(visits(&gs[0]), vec![0]);
    assert_eq!(gs[1].arena[0].visit_count, 5);
}

#[test]
fn leaves_that_end_the_game_need_no_network() {
    let board = Boards::new(1);
    let net = Net::new();
    let mut gs = games(&board, &[1]);
    assert!(run_simulations(&mut gs, &vec![1], 6, &Machine, &board, &net).is_ok());
    assert_eq!(*net.batches.borrow(), vec![1]);
    assert_eq!(gs[0].arena[0].visit_count, 6);
    // The winning move is found.
    let best = gs[0].arena[0].children.iter().max_by_key(|&&(_, c)| gs[0].arena[c as usize].visit_count);
    assert_eq!(best.unwrap().0, 12);
}

#[test]
fn a_walk_that_cannot_go_on_halts_the_batch() {
    let board = Boards::new(5);
    let mut gs = games(&board, &[1, 2]);
    assert!(run_cycle(&mut gs, &vec![1, 2], 1, false, &Machine, &board, &Net::new()).is_ok());
    for i in 1..4 {
        gs[1].arena[i].prior = f64::NAN.to_bits();
    }
    let out = gather_leaves(&gs, &vec![1, 2], &Machine, &board);
    assert!(matches!(out, Err(Halt::Stuck(1))));
    let out = run_cycle(&mut gs, &vec![1, 2], 1, false, &Machine, &board, &Net::new());
    assert!(matches!(out, Err(Halt::Stuck(1))));
}

#[test]
fn searched_moves_are_greedy_after_the_opening() {
    let board = Boards::new(1);
    let positions = vec![board.start(0, None), board.start(1, None)];
    let (lines, plies, seats) = (vec![Vec::new(); 2], vec![10, 10], vec![0, 1]);
    let out = net_moves(positions, &lines, &plies, &seats, 10, 30, &Machine, &board, &Net::new());
    assert!(matches!(out, Ok(ref m) if *m == vec![12, 12]));
    // White is to move, and wins with an odd number of second moves.
    let board = Boards::new(3);
    let lines = vec![vec![12, 11], vec![11, 13]];
    let positions = vec![board.play(0, &lines[0]), board.play(1, &lines[1])];
    let out = net_moves(positions, &lines, &plies, &seats, 10, 30, &Machine, &board, &Net::new());
    assert!(matches!(out, Ok(ref m) if m[0] != 12 && m[1] == 12));
}

// --- the engine --------------------------------------------------------------

#[test]
fn the_engine_plays_games_to_the_end() {
    let board = Boards::new(3);
    let net = Net::new();
    let mut e = MctsEngine::new(2, 8, 5, true, &board);
    let mut rounds = 0;
    while !e.all_done() {
        assert!(e.run_search(&Machine, &board, &net).is_ok());
        assert!(e.can_step());
        e.step_moves(&Machine, &board);
        rounds += 1;
    }
    assert_eq!(rounds, 3);
    assert_eq!(e.finished, 2);
    let rows: Vec<Row> = e.take_results();
    assert_eq!(rows.len(), 6);
    assert!(e.take_results().is_empty());
    assert_eq!(e.finished, 0);
    assert!(e.games.iter().all(|g| g.line.len() == 3));
    for r in &rows {
        assert_eq!((r.state.len(), r.pi.len()), (ENC_LEN, POLICY_SIZE));
        assert_eq!(f32::from_bits(r.z).abs(), 1.0);
    }
}

#[test]
fn the_engine_asks_and_is_answered() {
    let board = Boards::new(9);
    let net = Net::new();
    let mut e = MctsEngine::new(3, 4, 5, false, &board);
    let mut asked = Vec::new();
    loop {
        let (enc, m) = match e.pending_positions(&Machine, &board) {
            Ok(Some(batch)) => batch,
            Ok(None) => break,
            Err(_) => panic!("a batch expected"),
        };
        asked.push(m);
        let (logits, values) = net.eval(&enc, m);
        e.apply_evals(&logits, &values, &Machine, &board);
    }
    assert_eq!(asked, vec![3; 5]);
    for gi in 0..3 {
        let stats = e.root_child_stats(gi);
        assert_eq!(stats.iter().map(|s| s.0).collect::<Vec<i32>>(), vec![100, 200, 300]);
        assert_eq!(stats.iter().map(|s| s.1).sum::<u32>(), 4);
    }
    assert_eq!(e.root_pi(0, 1.0f64.to_bits(), &Machine).len(), POLICY_SIZE);
    let moves = e.select_moves(0, &board);
    assert_eq!(moves.len(), 3);
    let stats = e.root_child_stats(1);
    let most = stats.iter().map(|s| s.1).max().unwrap();
    let first = stats.iter().position(|s| s.1 == most).unwrap();
    assert_eq!(moves[1], [11, 12, 13][first]);
}

#[test]
fn the_engine_follows_a_move_from_outside() {
    let board = Boards::new(9);
    let mut e = MctsEngine::from_fens(vec![board.start(0, None), board.start(1, None)], 4, 5, false);
    assert!(e.run_search(&Machine, &board, &Net::new()).is_ok());
    let before = e.root_child_stats(1)[1].1;
    assert!(e.advance_by_move_index(1, 200, &board));
    assert_eq!(e.games[1].line, vec![12]);
    assert!(e.games[0].line.is_empty());
    assert_eq!(e.games[1].arena[0].visit_count, before);
    assert_eq!(e.games[0].arena[0].visit_count, 4);
    assert!(!e.advance_by_move_index(1, 7, &board));
    e.reset_cycle();
    assert!(e.run_search(&Machine, &board, &Net::new()).is_ok());
    assert_eq!(e.games[1].arena[0].visit_count, before + 4);
}

#[test]
fn a_batch_that_was_not_answered_is_asked_for_again() {
    let board = Boards::new(9);
    let net = Net::new();
    let mut e = MctsEngine::new(2, 4, 5, false, &board);
    let first = e.pending_positions(&Machine, &board).ok().unwrap().unwrap();
    assert!(e.check_pending());
    let again = e.pending_positions(&Machine, &board).ok().unwrap().unwrap();
    assert_eq!(first, again);
    let (logits, values) = net.eval(&again.0, again.1);
    e.apply_evals(&logits, &values, &Machine, &board);
    let leaves = e.pending_positions(&Machine, &board).ok().unwrap().unwrap();
    assert_eq!(leaves.1, 2);
    assert!(e.check_pending() && e.find_full().is_none() && e.can_step());
    // The moves are played although the batch is out: its leaves are gone.
    e.step_moves(&Machine, &board);
    assert!(!e.check_pending());
    assert!(e.run_search(&Machine, &board, &net).is_ok());
    assert!(e.check_pending());
    for gi in 0..2 {
        assert_eq!(e.root_child_stats(gi).iter().map(|s| s.1).sum::<u32>(), 4);
    }
}

#[test]
fn a_round_hands_out_rows_and_refills() {
    let board = Boards::new(1);
    let mut e = MctsEngine::new(2, 4, 5, false, &board);
    assert!(e.run_search(&Machine, &board, &Net::new()).is_ok());
    e.step_moves(&Machine, &board);
    let round = e.end_round(true, &board);
    let (rows, n) = round.rows.unwrap();
    assert_eq!((rows.len(), n), (2, 2));
    assert!(!round.over && !e.all_done());
    assert!(e.run_search(&Machine, &board, &Net::new()).is_ok());
    e.step_moves(&Machine, &board);
    assert!(e.end_round(false, &board).over);
}

#[test]
fn a_round_reports_the_games_that_ended_in_it() {
    // The games take one, two and three plies.
    let board = Boards { length: 1, longer: 1 };
    let mut e = MctsEngine::new(3, 4, 5, false, &board);
    let mut reported = Vec::new();
    for plies in 1..=3 {
        assert!(e.run_search(&Machine, &board, &Net::new()).is_ok());
        e.step_moves(&Machine, &board);
        let round = e.end_round(false, &board);
        let (rows, n) = round.rows.unwrap();
        assert_eq!(rows.len(), plies);
        assert_eq!(round.over, plies == 3);
        reported.push(n);
    }
    assert_eq!(reported, vec![1, 1, 1]);
}

#[test]
fn a_round_without_an_ending_reports_nothing() {
    let board = Boards { length: 2, longer: 0 };
    let mut e = MctsEngine::new(2, 4, 5, false, &board);
    assert!(e.run_search(&Machine, &board, &Net::new()).is_ok());
    e.step_moves(&Machine, &board);
    let round = e.end_round(false, &board);
    assert!(round.rows.is_none() && !round.over);
}

// --- games in flight ---------------------------------------------------------

const CONFIG: Config = Config { sims: 6, add_root_noise: true, bucket_size: 2, seed: 77 };

#[test]
fn a_game_in_flight_stops_at_each_evaluation() {
    let board = Boards::new(3);
    let net = Net::new();
    let mut g = spawn_fresh(&CONFIG, 9, &board);
    assert_eq!((g.id, g.seed), (9, game_seed(77, 9)));
    let mut evals = 0;
    let rows = loop {
        match worker_turn(&mut g, &CONFIG, &Machine, &board) {
            Advance::Eval => {
                evals += 1;
                assert_eq!(g.staged_enc.len(), ENC_LEN);
                let (logits, values) = net.eval(&g.staged_enc, 1);
                let mut queue = Queue::new();
                requeue_scattered(&mut queue, Arc::new(logits), &values, vec![Box::new(g)]);
                g = *queue.pop().unwrap();
            }
            Advance::Done(rows) => break rows,
            Advance::Stuck => panic!("the game goes on"),
        }
    };
    assert_eq!(rows.len(), 3);
    assert!(evals > 3 && evals <= 3 * 7, "{}", evals);
    assert!(g.game.done);
}

#[test]
fn a_game_in_flight_plays_like_a_game_in_a_batch() {
    let board = Boards::new(4);
    let seats = vec![9];
    let mut gs = games(&board, &seats);
    assert!(run_cycle(&mut gs, &seats, 6, true, &Machine, &board, &Net::new()).is_ok());
    let mut g = spawn_fresh(&CONFIG, 9, &board);
    let net = Net::new();
    loop {
        match worker_turn(&mut g, &CONFIG, &Machine, &board) {
            Advance::Eval => {
                if g.game.history.len() > 0 {
                    break;
                }
                assert!(g.game.arena[0].visit_count < 6);
                let (logits, values) = net.eval(&g.staged_enc, 1);
                let mut queue = Queue::new();
                requeue_scattered(&mut queue, Arc::new(logits), &values, vec![Box::new(g)]);
                g = *queue.pop().unwrap();
            }
            _ => panic!("an evaluation expected"),
        }
    }
    let counts: Vec<f32> = [100, 200, 300].iter().map(|&i| f32::from_bits(g.game.history[0].pi[i])).collect();
    let want: Vec<f32> = gs[0].arena[0]
        .children
        .iter()
        .map(|&(_, c)| (gs[0].arena[c as usize].visit_count as f64 / 6.0) as f32)
        .collect();
    assert_eq!(counts, want);
}

fn staged(id: u64, board: &Boards) -> Box<InFlight> {
    let mut g = spawn_fresh(&CONFIG, id, board);
    assert!(matches!(worker_turn(&mut g, &CONFIG, &Machine, board), Advance::Eval));
    g.staged_enc[7] = id as u32;
    Box::new(g)
}

#[test]
fn the_queue_serves_the_longest_game_first() {
    let board = Boards::new(3);
    let mut queue = Queue::new();
    for (key, seq) in [(3, 1), (9, 2), (0, 3), (9, 1), (3, 4)] {
        queue.push(Queued { key, seq, item: staged(seq * 100 + key, &board) });
    }
    let mut order = Vec::new();
    while let Some(g) = queue.pop() {
        order.push(g.id);
    }
    assert_eq!(order, vec![209, 109, 403, 103, 300]);
}

#[test]
fn answers_come_back_to_their_games() {
    let board = Boards::new(3);
    let mut queue = Queue::new();
    let games = vec![staged(1, &board), staged(2, &board)];
    let mut logits = vec![0u32; 2 * POLICY_SIZE];
    logits[0] = 17;
    logits[POLICY_SIZE] = 19;
    let logits = Arc::new(logits);
    requeue_scattered(&mut queue, logits.clone(), &vec![5, 6], games);
    let second = queue.pop().unwrap();
    let first = queue.pop().unwrap();
    assert!(queue.pop().is_none());
    assert_eq!((first.id, second.id), (1, 2));
    let (a, b) = (first.pending.unwrap(), second.pending.unwrap());
    assert_eq!((a.row, a.value, b.row, b.value), (0, 5, 1, 6));
    assert_eq!(a.logits[0], 17);
    assert_eq!(*b.logits, *logits);
}

// --- buckets -----------------------------------------------------------------

#[test]
fn a_full_bucket_waits_for_the_network() {
    let board = Boards::new(3);
    let mut s = BucketState::new(2);
    assert!(s.take_ready().is_none());
    assert!(matches!(s.push_to_bucket(staged(1, &board), 2), Offer::Taken { handed_over: false }));
    assert!(matches!(s.push_to_bucket(staged(2, &board), 2), Offer::Taken { handed_over: true }));
    assert!(matches!(s.push_to_bucket(staged(3, &board), 2), Offer::Taken { handed_over: false }));
    assert!(matches!(s.push_to_bucket(staged(4, &board), 2), Offer::Taken { handed_over: false }));
    match s.push_to_bucket(staged(5, &board), 2) {
        Offer::Blocked(g) => assert_eq!(g.id, 5),
        _ => panic!("both buckets are full"),
    }
    let full = s.take_ready().unwrap();
    assert_eq!(full.len(), 2);
    assert_eq!(full.games.iter().map(|g| g.id).collect::<Vec<u64>>(), vec![1, 2]);
    assert_eq!((full.enc[7], full.enc[ENC_LEN + 7]), (1, 2));
    assert!(matches!(s.push_to_bucket(staged(5, &board), 2), Offer::Taken { handed_over: true }));
    assert_eq!(s.take_ready().unwrap().games[0].id, 3);
    assert_eq!(s.active.len(), 1);
}

// --- the ring ----------------------------------------------------------------

#[test]
fn a_ring_needs_inputs_and_whole_policies() {
    assert!(matches!(RingState::new(0, 3, 1, 2), Ok(None)));
    assert!(matches!(RingState::new(3, 3, 1, 2), Err(RingError::LogitStride)));
    let ring = match RingState::new(3, 3, POLICY_SIZE, 2) {
        Ok(Some(ring)) => ring,
        _ => panic!("a ring expected"),
    };
    assert_eq!((ring.active.slot, ring.free), (0, vec![1, 2]));
}

#[test]
fn slots_of_the_ring_are_used_in_turn() {
    let board = Boards::new(3);
    let mut ring = match RingState::new(2, 2, POLICY_SIZE, 2) {
        Ok(Some(ring)) => ring,
        _ => panic!("a ring expected"),
    };
    let mut place = |ring: &mut RingState, id: u64| match ring.push_ring(staged(id, &board)) {
        RingOffer::Placed { slot, row, input, handed_over } => {
            assert_eq!(input.len(), ENC_LEN);
            Some((slot, row, handed_over))
        }
        RingOffer::Blocked(g) => {
            assert_eq!(g.id, id);
            None
        }
    };
    assert_eq!(place(&mut ring, 1), Some((0, 0, false)));
    assert_eq!(place(&mut ring, 2), Some((0, 1, true)));
    assert_eq!(place(&mut ring, 3), Some((1, 0, false)));
    assert_eq!(place(&mut ring, 4), Some((1, 1, false)));
    assert_eq!(place(&mut ring, 5), None);
    let full = ring.take_ready().unwrap();
    assert_eq!(full.slot, 0);
    assert_eq!(full.games.iter().map(|g| g.id).collect::<Vec<u64>>(), vec![1, 2]);
    assert!(ring.take_ready().is_none());
    assert_eq!(place(&mut ring, 5), None);
    ring.release(0);
    assert_eq!(place(&mut ring, 5), Some((0, 0, true)));
    assert_eq!(ring.take_ready().unwrap().slot, 1);
}

#[test]
fn the_ring_writes_short_numbers() {
    let board = Boards::new(3);
    let mut ring = match RingState::new(2, 2, POLICY_SIZE, 1) {
        Ok(Some(ring)) => ring,
        _ => panic!("a ring expected"),
    };
    let mut g = staged(1, &board);
    g.staged_enc[7] = 1.0f32.to_bits();
    match ring.push_ring(g) {
        RingOffer::Placed { input, .. } => assert_eq!((input[7], input[8]), (0x3f80, 0)),
        _ => panic!("a place expected"),
    }
}

// --- shares ------------------------------------------------------------------

#[test]
fn slots_are_dealt_in_contiguous_shares() {
    assert_eq!(deal_slots(5, 2), vec![vec![0, 1, 2], vec![3, 4]]);
    assert_eq!(deal_slots(3, 0), vec![vec![0, 1, 2]]);
    for n in 1..20usize {
        for t in 1..8usize {
            let shares = deal_slots(n, t);
            assert!(shares.iter().all(|s| !s.is_empty()));
            let all: Vec<usize> = shares.concat();
            assert_eq!(all, (0..n).collect::<Vec<usize>>());
        }
    }
}

#[test]
fn a_worker_plays_its_share_to_the_end() {
    let board = Boards::new(2);
    let config =
        RunConfig { sims: 4, add_root_noise: false, refill: false, master_seed: 3, max_batch: 8 };
    let mut shard = Shard::new(&vec![4, 6], &config, &board);
    assert_eq!(shard.slots[1], Slot { seed: slot_seed(3, 6, 0), global_index: 6, generation: 0 });
    let mut uids = Vec::new();
    while !shard.all_done() {
        match shard.worker_round(&config, &Machine, &board, &Net::new()) {
            Ok(finished) => uids.extend(finished.iter().map(|f| (f.game_uid, f.rows.len()))),
            Err(_) => panic!("the games go on"),
        }
    }
    assert_eq!(uids, vec![(game_uid(4, 0), 2), (game_uid(6, 0), 2)]);
}

#[test]
fn a_slot_plays_the_same_games_in_any_share() {
    let board = Boards::new(3);
    let games = |share: Vec<usize>, max_batch: usize| {
        let config =
            RunConfig { sims: 5, add_root_noise: true, refill: false, master_seed: 3, max_batch };
        let mut shard = Shard::new(&share, &config, &board);
        let mut out = Vec::new();
        while !shard.all_done() {
            match shard.worker_round(&config, &Machine, &board, &Net::new()) {
                Ok(finished) => out.extend(finished),
                Err(_) => panic!("the games go on"),
            }
        }
        let mine = out.into_iter().find(|f| f.game_uid == game_uid(6, 0)).unwrap();
        let at = share.iter().position(|&gi| gi == 6).unwrap();
        let line = shard.games[at].line.clone();
        let rows: Vec<_> = mine.rows.into_iter().map(|r| (r.state, r.pi, r.z)).collect();
        (line, rows)
    };
    let alone = games(vec![6], 1);
    assert_eq!(alone.0.len(), 3);
    assert_eq!(games(vec![4, 6], 8), alone);
    assert_eq!(games(vec![6, 7, 9], 2), alone);
}

#[test]
fn a_run_hands_on_the_same_rows_with_any_number_of_workers() {
    let board = Boards::new(3);
    let n_games = 5;
    let run = |n_threads: usize, max_batch: usize| {
        let config =
            RunConfig { sims: 5, add_root_noise: true, refill: false, master_seed: 3, max_batch };
        let mut games = Vec::new();
        let mut rows = Vec::new();
        for share in deal_slots(n_games, n_threads) {
            let mut shard = Shard::new(&share, &config, &board);
            while !shard.all_done() {
                match shard.worker_round(&config, &Machine, &board, &Net::new()) {
                    Ok(finished) => {
                        for f in finished {
                            games.push(f.game_uid);
                            rows.extend(f.rows.into_iter().map(|r| (r.state, r.pi, r.z)));
                        }
                    }
                    Err(_) => panic!("the games go on"),
                }
            }
        }
        games.sort();
        rows.sort();
        (games, rows)
    };
    let one = run(1, 64);
    assert_eq!(one.0, (0..n_games).map(|gi| game_uid(gi, 0)).collect::<Vec<u64>>());
    assert!(one.1.iter().all(|r| r.0.len() == ENC_LEN && r.1.len() == POLICY_SIZE));
    assert_eq!(run(2, 1), one);
    assert_eq!(run(5, 8), one);
    assert_eq!(run(9, 3), one);
}

/// Boards that write down which seeds they were given.
struct Seeded {
    boards: Boards,
    seeds: RefCell<Vec<(u64, Option<u64>)>>,
}

impl Table for Seeded {
    fn start(&self, seat: u64, seed: Option<u64>) -> Position {
        self.seeds.borrow_mut().push((seat, seed));
        self.boards.start(seat, seed)
    }

    fn look(&self, seat: u64, line: &Vec<u16>, handles: &Vec<u16>) -> Position {
        self.boards.look(seat, line, handles)
    }

    fn play(&self, seat: u64, line: &Vec<u16>) -> Position {
        self.boards.play(seat, line)
    }

    fn noise(&self, seat: u64, line: &Vec<u16>, n: usize) -> Vec<u64> {
        self.boards.noise(seat, line, n)
    }

    fn draw(&self, seat: u64, line: &Vec<u16>, counts: &Vec<u32>, t: u64) -> (u64, Vec<u64>) {
        self.boards.draw(seat, line, counts, t)
    }
}

#[test]
fn every_game_gets_its_seed() {
    let table = Seeded { boards: Boards::new(1), seeds: RefCell::new(Vec::new()) };
    let config =
        RunConfig { sims: 4, add_root_noise: false, refill: true, master_seed: 3, max_batch: 8 };
    let mut shard = Shard::new(&vec![4], &config, &table);
    assert!(shard.worker_round(&config, &Machine, &table, &Net::new()).is_ok());
    let g = spawn_fresh(&CONFIG, 12, &table);
    assert_eq!(g.seed, game_seed(77, 12));
    MctsEngine::new(1, 4, 5, false, &table);
    assert_eq!(
        *table.seeds.borrow(),
        vec![
            (game_uid(4, 0), Some(slot_seed(3, 4, 0))),
            (game_uid(4, 1), Some(slot_seed(3, 4, 1))),
            (12, Some(game_seed(77, 12))),
            (0, None),
        ],
    );
}

#[test]
fn a_refilled_slot_plays_its_next_game() {
    let board = Boards::new(1);
    let config =
        RunConfig { sims: 4, add_root_noise: false, refill: true, master_seed: 3, max_batch: 8 };
    let mut shard = Shard::new(&vec![4], &config, &board);
    for generation in 0..3u32 {
        match shard.worker_round(&config, &Machine, &board, &Net::new()) {
            Ok(finished) => {
                assert_eq!(finished.len(), 1);
                assert_eq!(finished[0].game_uid, game_uid(4, generation));
            }
            Err(_) => panic!("the games go on"),
        }
        assert!(!shard.all_done());
        assert_eq!(shard.slots[0].seed, slot_seed(3, 4, generation + 1));
    }
}

// --- the consumer ------------------------------------------------------------

fn request(worker: usize, n_rows: usize) -> EvalRequest {
    let rows = (0..n_rows * ENC_LEN).map(|i| (worker * 10 + i / ENC_LEN) as u32).collect();
    EvalRequest { worker, rows, n_rows }
}

#[test]
fn answers_are_routed_to_who_asked() {
    let mut intake = Intake::new(1);
    intake.absorb(ToConsumer::Eval(request(3, 2)));
    intake.absorb(ToConsumer::WorkerDone);
    intake.absorb(ToConsumer::Eval(request(1, 1)));
    let rows = vec![Row { state: Vec::new(), pi: Vec::new(), z: 4 }];
    intake.absorb(ToConsumer::Finished(vec![FinishedGame { game_uid: 8, rows }]));
    assert_eq!((intake.total_rows, intake.workers_done, intake.n_finished), (3, 2, 1));
    assert_eq!(intake.finished_rows.len(), 1);
    assert!(intake.wants_more(4));
    assert!(!intake.wants_more(3));
    assert!(intake.is_over(2) && !intake.is_over(3));
    let enc = intake.batch();
    let firsts: Vec<u32> = enc.iter().step_by(ENC_LEN).cloned().collect();
    assert_eq!(firsts, vec![30, 31, 10]);
    // The policy of a row starts with the number of its position.
    let mut logits = vec![0u32; 3 * POLICY_SIZE];
    for (r, &f) in firsts.iter().enumerate() {
        logits[r * POLICY_SIZE] = f;
    }
    let out = route(&intake.requests, &logits, &vec![100, 101, 102]);
    assert_eq!(out.len(), 2);
    assert_eq!((out[0].worker, out[1].worker), (3, 1));
    assert_eq!(out[0].logits.len(), 2 * POLICY_SIZE);
    assert_eq!((out[0].logits[0], out[0].logits[POLICY_SIZE], out[1].logits[0]), (30, 31, 10));
    assert_eq!((out[0].values.clone(), out[1].values.clone()), (vec![100, 101], vec![102]));
    let (rows, n) = intake.delivery().unwrap();
    assert_eq!((rows.len(), rows[0].z, n), (1, 4, 1));
    assert!(Intake::new(2).delivery().is_none());
}

#[test]
fn a_blank_answer_holds_zeros() {
    let (logits, values) = blank_answer(2);
    assert_eq!(logits, vec![0; 2 * POLICY_SIZE]);
    assert_eq!(values, vec![0; 2]);
}

use std::cell::RefCell;

use selfplay::arith::{Evaluator, Table};
use selfplay::choice::{argmax_cand, candidates, policy_moves, sample_action, sample_cand, Sampler};
use selfplay::cohort::{
    finalize, flat_batch, new_game, owner_of, prepare, sizes, spawn, take_turn, Cohort, Config,
    Decision, Harvest, Next, Sizes, Tally, Turn, ROW_FLOATS,
};
use selfplay::frame::write_cohort;
use selfplay::game::Position;
use selfplay::tree::{ENC_LEN, POLICY_SIZE};

fn config(threads: usize, batch: usize, concurrency: usize) -> Config {
    Config {
        weights: String::new(),
        out: String::new(),
        target_rows: 10,
        batch,
        threads,
        concurrency,
        temperature: 1.0f64.to_bits(),
        temp_end: 0.5f64.to_bits(),
        max_plies: 3,
        seed: 0,
        cpu: true,
    }
}

/// Boards of a game with two moves; White wins after `length` plies.
struct Boards {
    length: usize,
}

impl Boards {
    fn new(length: usize) -> Self {
        Boards { length }
    }

    fn at(&self, ply: usize) -> Position {
        let over = ply >= self.length;
        let mut enc = vec![0; ENC_LEN];
        enc[0] = ply as u32;
        Position {
            legal: if over { Vec::new() } else { vec![(11, 100), (12, 200)] },
            enc,
            white_to_move: ply % 2 == 0,
            outcome: if over { Some(1) } else { None },
            terminal: if over { Some(0) } else { None },
        }
    }
}

impl Table for Boards {
    fn start(&self, _seat: u64, _seed: Option<u64>) -> Position {
        self.at(0)
    }

    fn look(&self, _seat: u64, line: &Vec<u16>, handles: &Vec<u16>) -> Position {
        self.at(line.len() + handles.len())
    }

    fn play(&self, _seat: u64, line: &Vec<u16>) -> Position {
        self.at(line.len())
    }

    fn noise(&self, _seat: u64, _line: &Vec<u16>, n: usize) -> Vec<u64> {
        vec![0; n]
    }

    fn draw(&self, _seat: u64, _line: &Vec<u16>, _c: &Vec<u32>, _t: u64) -> (u64, Vec<u64>) {
        (0, Vec::new())
    }
}

/// Draws the given share of the weight.
struct Share {
    share: f32,
    asked: RefCell<Vec<(f64, u64)>>,
}

impl Share {
    fn new(share: f32) -> Self {
        Share { share, asked: RefCell::new(Vec::new()) }
    }
}

impl Sampler for Share {
    fn temper(&self, start: u64, end: u64, steps: usize) -> u64 {
        let (start, end) = (f64::from_bits(start), f64::from_bits(end));
        (start + (end - start) * (steps as f64 / 40.0)).to_bits()
    }

    fn draw(&self, seat: u64, logits: &Vec<u32>, temperature: u64) -> (u32, Vec<u32>) {
        self.asked.borrow_mut().push((f64::from_bits(temperature), seat));
        let t = f64::from_bits(temperature).max(1e-6) as f32;
        let xs: Vec<f32> = logits.iter().map(|&x| f32::from_bits(x)).collect();
        let top = xs.iter().cloned().fold(f32::NEG_INFINITY, f32::max);
        let mut acc = 0.0f32;
        let mut cumulative = Vec::new();
        for x in &xs {
            acc += ((x - top) / t).exp();
            cumulative.push(acc.to_bits());
        }
        ((self.share * acc).to_bits(), cumulative)
    }
}

fn row(a: f32, b: f32) -> Vec<u32> {
    let mut row = vec![0u32; POLICY_SIZE];
    row[100] = a.to_bits();
    row[200] = b.to_bits();
    row
}

// --- choosing ----------------------------------------------------------------

#[test]
fn the_best_candidate_is_the_first_of_the_largest() {
    let cand = vec![(100, 11), (200, 12), (300, 13)];
    assert_eq!(argmax_cand(&cand, &row(0.5, 0.7)), 12);
    assert_eq!(argmax_cand(&cand, &row(-1.0, -1.0)), 13);
    assert_eq!(argmax_cand(&cand, &row(0.0, 0.0)), 11);
    assert_eq!(argmax_cand(&vec![(100, 11)], &row(f32::NAN, 0.0)), 11);
    assert_eq!(candidates(&vec![(11, 100), (12, 200)]), vec![(100, 11), (200, 12)]);
}

#[test]
fn candidates_are_sampled_by_weight() {
    let cand = vec![(100, 11), (200, 12)];
    let one = 1.0f64.to_bits();
    let logits = row(0.0, 0.0);
    assert_eq!(sample_action(&cand, &logits, one, &Share::new(0.0), 0), 0);
    assert_eq!(sample_action(&cand, &logits, one, &Share::new(0.49), 0), 0);
    assert_eq!(sample_action(&cand, &logits, one, &Share::new(0.5), 0), 1);
    assert_eq!(sample_action(&cand, &logits, one, &Share::new(0.51), 0), 1);
    assert_eq!(sample_action(&cand, &logits, one, &Share::new(1.5), 0), 1);
    assert_eq!(sample_cand(&cand, &logits, one, &Share::new(0.51), 0), 12);
    // The weights are e and 1.
    assert_eq!(sample_cand(&cand, &row(1.0, 0.0), one, &Share::new(0.7), 0), 11);
    assert_eq!(sample_cand(&cand, &row(1.0, 0.0), one, &Share::new(0.75), 0), 12);
}

#[test]
fn candidates_without_weight_are_never_sampled() {
    let cand = vec![(100, 11), (200, 12), (300, 13)];
    let one = 1.0f64.to_bits();
    let mut logits = row(f32::NEG_INFINITY, 0.0);
    for share in [0.0, 0.25, 0.5, 0.75, 0.999] {
        let k = sample_action(&cand, &logits, one, &Share::new(share), 0);
        assert_eq!(k, if share < 0.5 { 1 } else { 2 });
    }
    logits[300] = f32::NEG_INFINITY.to_bits();
    for share in [0.0, 0.5, 0.999] {
        assert_eq!(sample_cand(&cand, &logits, one, &Share::new(share), 0), 12);
    }
}

struct Fixed(Vec<u32>);

impl Evaluator for Fixed {
    fn eval(&self, enc: &Vec<u32>, m: usize) -> (Vec<u32>, Vec<u64>) {
        assert_eq!(enc.len(), m * ENC_LEN);
        let mut logits = Vec::new();
        for _ in 0..m {
            logits.extend_from_slice(&self.0);
        }
        (logits, vec![0; m])
    }
}

#[test]
fn policy_players_sample_in_the_opening_only() {
    let board = Boards::new(9);
    let p = board.at(0);
    let net = Fixed(row(1.0, 0.0));
    let sampler = Share::new(0.99);
    let moves = policy_moves(&vec![&p, &p], &vec![0, 8], 8, &sampler, 5, &net);
    assert_eq!(moves, vec![12, 11]);
    assert_eq!(*sampler.asked.borrow(), vec![(1.0, 5)]);
    assert!(policy_moves(&Vec::new(), &Vec::new(), 8, &sampler, 5, &net).is_empty());
}

// --- episodes ----------------------------------------------------------------

#[test]
fn a_decision_is_prepared_from_the_legal_moves() {
    let p = Boards::new(9).at(1);
    let pending = prepare(&p);
    assert_eq!(pending.enc, p.enc);
    assert_eq!(pending.cand, vec![(100, 11), (200, 12)]);
    assert!(!pending.white_to_move);
    for (i, &m) in pending.mask.iter().enumerate() {
        let legal = i == 100 || i == 200;
        assert_eq!(m, (if legal { 1.0f32 } else { 0.0 }).to_bits());
    }
}

#[test]
fn finished_games_become_rows() {
    let board = Boards::new(2);
    let mut game = new_game(board.at(2));
    for (action, white_to_move) in [(200, true), (100, false)] {
        game.decisions.push(Decision {
            state: vec![7; ENC_LEN],
            mask: vec![9; POLICY_SIZE],
            action,
            white_to_move,
        });
    }
    let mut buf = vec![5];
    assert_eq!(finalize(&mut game, &mut buf), 2);
    assert_eq!(buf.len(), 1 + 2 * ROW_FLOATS);
    let (first, second) = (&buf[1..1 + ROW_FLOATS], &buf[1 + ROW_FLOATS..]);
    assert_eq!((first[0], first[ENC_LEN]), (7, 9));
    assert_eq!(f32::from_bits(first[ROW_FLOATS - 2]), 200.0);
    assert_eq!(f32::from_bits(first[ROW_FLOATS - 1]), 1.0);
    assert_eq!(f32::from_bits(second[ROW_FLOATS - 2]), 100.0);
    assert_eq!(f32::from_bits(second[ROW_FLOATS - 1]), -1.0);
    assert!(game.decisions.is_empty());
    assert_eq!(finalize(&mut game, &mut buf), 0);
}

#[test]
fn rows_of_different_decisions_differ() {
    let rows = |action: u32, white_to_move: bool| {
        let mut game = new_game(Boards::new(2).at(2));
        let (state, mask) = (vec![7; ENC_LEN], vec![9; POLICY_SIZE]);
        game.decisions.push(Decision { state, mask, action, white_to_move });
        let mut buf = Vec::new();
        finalize(&mut game, &mut buf);
        buf
    };
    assert_eq!(rows(5, true), rows(5, true));
    assert_ne!(rows(5, true), rows(6, true));
    assert_ne!(rows(5, true), rows(5, false));
}

fn play_out(board: &Boards, sampler: &Share) -> (usize, Vec<u32>) {
    let cfg = config(1, 1, 0);
    let mut harvest = Harvest::new();
    let mut logits = row(9.0, 9.0);
    logits.extend(row(0.0, 0.0));
    let mut flight = spawn(board, 4, 2);
    assert_eq!(flight.owner, 2);
    loop {
        match take_turn(flight, &logits, 1, &cfg, sampler, board, 4, &mut harvest) {
            Turn::Waits(f) => flight = f,
            Turn::Over(k) => {
                assert_eq!(harvest.rows, k);
                return (k, harvest.buf);
            }
        }
    }
}

#[test]
fn the_head_of_a_cohort_tells_its_length() {
    let board = Boards::new(2);
    let cfg = config(1, 1, 1);
    let logits = row(0.0, 0.0);
    let mut cohort = Cohort::new();
    for games in [1, 0, 2] {
        let mut harvest = Harvest::new();
        for seat in 0..games {
            let mut flight = spawn(&board, seat, 0);
            loop {
                let sampler = Share::new(0.9);
                match take_turn(flight, &logits, 0, &cfg, &sampler, &board, seat, &mut harvest) {
                    Turn::Waits(f) => flight = f,
                    Turn::Over(_) => break,
                }
            }
        }
        assert_eq!(harvest.buf.len(), harvest.rows * ROW_FLOATS);
        cohort.gather(harvest);
    }
    assert_eq!((cohort.buffers.len(), cohort.n_rows), (3, 6));
    let out = write_cohort(&cohort.buffers, cohort.n_rows);
    assert_eq!(out[..4], 6u32.to_le_bytes());
    assert_eq!(out.len(), 8 + 4 * 6 * ROW_FLOATS);
}

#[test]
fn an_episode_ends_with_the_game() {
    let sampler = Share::new(0.9);
    let (k, buf) = play_out(&Boards::new(2), &sampler);
    assert_eq!((k, buf.len()), (2, 2 * ROW_FLOATS));
    assert_eq!(f32::from_bits(buf[ROW_FLOATS - 2]), 200.0);
    assert_eq!(f32::from_bits(buf[2 * ROW_FLOATS - 1]), -1.0);
    assert_eq!(*sampler.asked.borrow(), vec![(1.0, 2), (1.0, 2)]);
}

#[test]
fn an_episode_ends_at_the_ply_cap_with_a_draw() {
    let (k, buf) = play_out(&Boards::new(99), &Share::new(0.1));
    assert_eq!((k, buf.len()), (3, 3 * ROW_FLOATS));
    for r in 0..3 {
        assert_eq!(f32::from_bits(buf[(r + 1) * ROW_FLOATS - 1]), 0.0);
        assert_eq!(f32::from_bits(buf[(r + 1) * ROW_FLOATS - 2]), 100.0);
        assert_eq!(buf[r * ROW_FLOATS], r as u32);
    }
}

#[test]
fn waiting_games_form_a_batch() {
    let board = Boards::new(9);
    let flights = vec![spawn(&board, 0, 0), spawn(&board, 1, 1)];
    let enc = flat_batch(&flights);
    assert_eq!(enc.len(), 2 * ENC_LEN);
    assert_eq!(enc[ENC_LEN..], flights[1].pending.enc[..]);
    assert!(flat_batch(&Vec::new()).is_empty());
}

// --- how many games ----------------------------------------------------------

#[test]
fn sizes_have_their_minimums() {
    assert_eq!(sizes(&config(0, 0, 0)), Sizes { threads: 1, batch: 1, concurrency: 2 });
    assert_eq!(sizes(&config(4, 8, 0)), Sizes { threads: 4, batch: 8, concurrency: 16 });
    assert_eq!(sizes(&config(4, 8, 3)), Sizes { threads: 4, batch: 8, concurrency: 8 });
    assert_eq!(sizes(&config(4, 8, 30)), Sizes { threads: 4, batch: 8, concurrency: 30 });
}

#[test]
fn games_belong_to_workers_in_turn() {
    let owners: Vec<usize> = (0..5).map(|j| owner_of(j, 3)).collect();
    assert_eq!(owners, vec![0, 1, 2, 0, 1]);
}

#[test]
fn a_cohort_is_done_when_the_last_game_is() {
    let mut t = Tally::new(10, 2);
    assert_eq!(t.finish(4), Next::Replace);
    assert_eq!(t.finish(5), Next::Replace);
    assert_eq!((t.rows, t.in_flight, t.done), (9, 2, false));
    assert_eq!(t.finish(1), Next::Retire);
    assert_eq!((t.rows, t.in_flight, t.done), (10, 1, false));
    assert_eq!(t.finish(0), Next::Retire);
    assert_eq!((t.in_flight, t.done), (0, true));
    assert!(t.rows >= t.target);
}

#[test]
fn a_cohort_overshoots_by_the_games_in_flight() {
    let (target, in_flight, longest) = (10, 3, 6);
    let mut t = Tally::new(target, in_flight);
    assert_eq!(t.finish(longest), Next::Replace);
    assert_eq!(t.finish(3), Next::Replace);
    while !t.done {
        assert_eq!(t.finish(longest), Next::Retire);
    }
    assert_eq!(t.rows, target - 1 + in_flight * longest);
}

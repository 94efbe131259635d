use std::cell::RefCell;

use selfplay::arith::{Arithmetic, Table};
use selfplay::game::{
    advance_subtree, finalize_rows, record_move, result_to_bits, step_move, steps_annealed, Game,
    Position, MAX_PLIES,
};
use selfplay::policy::{
    add_dirichlet_noise, most_visited, noise_draw, pick_above, root_visits, sample_move,
    visits_to_pi, NoiseDraw,
};
use selfplay::search::{back_up_once, backprop, expand_node, select_child, walk_to_leaf};
use selfplay::tree::{copy_subtree, Node, ENC_LEN, POLICY_SIZE};

/// Arithmetic of the machine.
struct Machine;

impl Arithmetic for Machine {
    fn quotient(&self, sum: u64, visits: u32) -> u64 {
        (f64::from_bits(sum) / visits as f64).to_bits()
    }

    fn score(&self, parent_visits: u32, child: &Node) -> u64 {
        let q = f64::from_bits(child.q(self));
        let sqrt_parent = (parent_visits as f64).sqrt();
        let prior = f64::from_bits(child.prior);
        (-q + 1.5 * prior * sqrt_parent / (1.0 + child.visit_count as f64)).to_bits()
    }

    fn softmax(&self, logits: &Vec<u32>) -> Vec<u64> {
        let xs: Vec<f64> = logits.iter().map(|&x| f32::from_bits(x) as f64).collect();
        let top = xs.iter().cloned().fold(f64::NEG_INFINITY, f64::max);
        let exps: Vec<f64> = xs.iter().map(|x| (x - top).exp()).collect();
        let total: f64 = exps.iter().sum();
        exps.iter().map(|e| (if total > 0.0 { e / total } else { *e }).to_bits()).collect()
    }

    fn plus(&self, x: u64, y: u64) -> u64 {
        (f64::from_bits(x) + f64::from_bits(y)).to_bits()
    }

    fn mix(&self, prior: u64, noise: u64) -> u64 {
        (0.75 * f64::from_bits(prior) + 0.25 * f64::from_bits(noise)).to_bits()
    }

    fn temper(&self, steps: usize) -> u64 {
        (1.0 + (steps as f64 / 40.0) * (0.35 - 1.0)).to_bits()
    }

    fn shares(&self, counts: &Vec<u32>, temperature: u64) -> Option<Vec<u32>> {
        let t = f64::from_bits(temperature);
        let powered: Vec<f64> = counts.iter().map(|&c| (c as f64).powf(1.0 / t)).collect();
        let total: f64 = powered.iter().sum();
        if total <= 0.0 {
            return None;
        }
        Some(powered.iter().map(|p| ((p / total) as f32).to_bits()).collect())
    }
}

/// Boards of a game with three moves in every position; it ends after `length` plies.
struct Boards {
    length: usize,
    asked: RefCell<Vec<usize>>,
}

impl Boards {
    fn new(length: usize) -> Self {
        Boards { length, asked: RefCell::new(Vec::new()) }
    }

    fn at(&self, moves: &[u16]) -> Position {
        let over = moves.len() >= self.length;
        let mut enc = vec![0; ENC_LEN];
        enc[0] = (moves.len() as f32).to_bits();
        Position {
            legal: if over { Vec::new() } else { vec![(11, 100), (12, 200), (13, 300)] },
            enc,
            white_to_move: moves.len() % 2 == 0,
            outcome: if over { Some(1) } else { None },
            terminal: if over { Some((-1.0f64).to_bits()) } else { None },
        }
    }
}

impl Table for Boards {
    fn start(&self, _seat: u64, _seed: Option<u64>) -> Position {
        self.at(&[])
    }

    fn look(&self, _seat: u64, line: &Vec<u16>, handles: &Vec<u16>) -> Position {
        let mut all = line.clone();
        all.extend(handles);
        self.at(&all)
    }

    fn play(&self, _seat: u64, line: &Vec<u16>) -> Position {
        self.at(line)
    }

    fn noise(&self, _seat: u64, _line: &Vec<u16>, n: usize) -> Vec<u64> {
        self.asked.borrow_mut().push(n);
        (0..n).map(|i| (if i == 0 { 1.0f64 } else { 0.0 }).to_bits()).collect()
    }

    fn draw(
        &self,
        _seat: u64,
        _line: &Vec<u16>,
        counts: &Vec<u32>,
        temperature: u64,
    ) -> (u64, Vec<u64>) {
        let t = f64::from_bits(temperature);
        let mut acc = 0.0;
        let mut cumulative = Vec::new();
        for &c in counts {
            acc += (c as f64).powf(1.0 / t);
            cumulative.push(f64::to_bits(acc));
        }
        (f64::to_bits(0.5 * acc), cumulative)
    }
}

fn num(x: u64) -> f64 {
    f64::from_bits(x)
}

fn logits() -> Vec<u32> {
    let mut row = vec![0f32.to_bits(); POLICY_SIZE];
    row[200] = 1f32.to_bits();
    row
}

/// A root with three children whose visit counts are given.
fn rooted(visits: [u32; 3]) -> Vec<Node> {
    let board = Boards::new(9);
    let mut arena = vec![Node::new(0, -1)];
    expand_node(&mut arena, 0, &board.at(&[]).legal, &logits(), &Machine);
    for (k, v) in visits.iter().enumerate() {
        arena[k + 1].visit_count = *v;
        arena[0].visit_count += *v;
    }
    arena
}

// --- nodes -------------------------------------------------------------------

#[test]
fn a_fresh_node_has_no_value() {
    let node = Node::new(0.25f64.to_bits(), 7);
    assert_eq!(num(node.prior), 0.25);
    assert_eq!((node.visit_count, node.value_sum, node.move_index), (0, 0, 7));
    assert!(!node.expanded && !node.noised && node.children.is_empty());
    assert_eq!(node.q(&Machine), 0);
    let mut node = node;
    node.visit_count = 4;
    node.value_sum = 3.0f64.to_bits();
    assert_eq!(num(node.q(&Machine)), 0.75);
}

#[test]
fn expanding_attaches_the_legal_moves_in_order() {
    let arena = rooted([0, 0, 0]);
    assert_eq!(arena.len(), 4);
    assert!(arena[0].expanded);
    assert_eq!(arena[0].children, vec![(11, 1), (12, 2), (13, 3)]);
    assert_eq!(arena[2].move_index, 200);
    let sum: f64 = (1..4).map(|i| num(arena[i].prior)).sum();
    assert!((sum - 1.0).abs() < 1e-12);
    let e = 1f64.exp();
    assert!((num(arena[2].prior) - e / (e + 2.0)).abs() < 1e-12);
    assert_eq!(arena[1].prior, arena[3].prior);
}

#[test]
fn expanding_without_moves_leaves_no_children() {
    let mut arena = vec![Node::new(0, -1)];
    expand_node(&mut arena, 0, &Vec::new(), &logits(), &Machine);
    assert!(arena[0].expanded && arena[0].children.is_empty());
    assert_eq!(arena.len(), 1);
    assert_eq!(walk_to_leaf(&arena, 0, &Machine), Some((vec![0], Vec::new())));
}

// --- search ------------------------------------------------------------------

#[test]
fn selection_takes_the_best_score() {
    let mut arena = rooted([0, 0, 0]);
    assert_eq!(select_child(&arena, 0, &Machine), Some((12, 2)));
    arena[2].visit_count = 10;
    arena[2].value_sum = 10.0f64.to_bits();
    // The other two score alike; the first of them is taken.
    assert_eq!(select_child(&arena, 0, &Machine), Some((11, 1)));
    for i in 1..4 {
        arena[i].prior = f64::NAN.to_bits();
    }
    assert_eq!(select_child(&arena, 0, &Machine), None);
    assert_eq!(walk_to_leaf(&arena, 0, &Machine), None);
    assert_eq!(select_child(&arena, 1, &Machine), None);
}

#[test]
fn a_walk_goes_down_to_an_unexpanded_node() {
    let mut arena = rooted([0, 0, 0]);
    assert_eq!(walk_to_leaf(&arena, 0, &Machine), Some((vec![0, 2], vec![12])));
    let legal = Boards::new(9).at(&[]).legal;
    expand_node(&mut arena, 2, &legal, &logits(), &Machine);
    let (path, handles) = walk_to_leaf(&arena, 0, &Machine).unwrap();
    assert_eq!((path.clone(), handles), (vec![0, 2, 5], vec![12, 12]));
    assert!(path.windows(2).all(|w| w[0] < w[1]));
    assert_eq!(walk_to_leaf(&arena, 3, &Machine), Some((vec![3], Vec::new())));
}

#[test]
fn values_change_sign_on_the_way_up() {
    let mut arena = rooted([0, 0, 0]);
    let legal = Boards::new(9).at(&[]).legal;
    expand_node(&mut arena, 2, &legal, &logits(), &Machine);
    let path = vec![0, 2, 5];
    backprop(&mut arena, &path, 0.5f64.to_bits(), &Machine);
    assert_eq!(num(arena[5].value_sum), 0.5);
    assert_eq!(num(arena[2].value_sum), -0.5);
    assert_eq!(num(arena[0].value_sum), 0.5);
    back_up_once(&mut arena, &path, 0.25f64.to_bits(), &Machine);
    assert_eq!(num(arena[2].value_sum), -0.75);
    let visits: Vec<u32> = arena.iter().map(|n| n.visit_count).collect();
    assert_eq!(visits, vec![2, 0, 2, 0, 0, 2, 0]);
}

#[test]
fn opposite_values_cancel_out() {
    let mut arena = rooted([4, 5, 6]);
    for (i, sum) in [3.0f64, -2.0, 7.0, 1.0].iter().enumerate() {
        arena[i].value_sum = sum.to_bits();
    }
    let before: Vec<(u64, u32)> = arena.iter().map(|n| (n.value_sum, n.visit_count)).collect();
    backprop(&mut arena, &vec![0, 2], 5.0f64.to_bits(), &Machine);
    assert_eq!((num(arena[0].value_sum), num(arena[2].value_sum)), (-2.0, 12.0));
    backprop(&mut arena, &vec![0, 2], (-5.0f64).to_bits(), &Machine);
    for (i, (sum, visits)) in before.into_iter().enumerate() {
        assert_eq!(arena[i].value_sum, sum);
        assert_eq!(arena[i].visit_count, visits + if i % 2 == 0 { 2 } else { 0 });
    }
}

#[test]
fn a_path_may_name_a_node_twice() {
    let mut arena = vec![Node::new(0, -1)];
    backprop(&mut arena, &vec![0, 0], 1.0f64.to_bits(), &Machine);
    assert_eq!(arena[0].visit_count, 2);
    assert_eq!(num(arena[0].value_sum), 0.0);
    backprop(&mut arena, &Vec::new(), 1.0f64.to_bits(), &Machine);
    assert_eq!(arena[0].visit_count, 2);
}

// --- noise and policy --------------------------------------------------------

#[test]
fn noise_goes_in_once() {
    let board = Boards::new(9);
    let mut arena = rooted([0, 0, 0]);
    let before: Vec<f64> = (1..4).map(|i| num(arena[i].prior)).collect();
    assert!(matches!(noise_draw(&arena, 0), NoiseDraw::Sample(3)));
    add_dirichlet_noise(&mut arena, 0, &Machine, &board, 0, &Vec::new());
    assert!(arena[0].noised);
    assert!((num(arena[1].prior) - (0.75 * before[0] + 0.25)).abs() < 1e-15);
    assert!((num(arena[2].prior) - 0.75 * before[1]).abs() < 1e-15);
    let after: Vec<u64> = (1..4).map(|i| arena[i].prior).collect();
    add_dirichlet_noise(&mut arena, 0, &Machine, &board, 0, &Vec::new());
    assert_eq!(after, (1..4).map(|i| arena[i].prior).collect::<Vec<u64>>());
    assert_eq!(*board.asked.borrow(), vec![3]);
}

#[test]
fn an_only_move_takes_all_the_noise() {
    let board = Boards::new(9);
    let mut arena = vec![Node::new(0, -1)];
    assert!(matches!(noise_draw(&arena, 0), NoiseDraw::Nothing));
    expand_node(&mut arena, 0, &vec![(5, 3)], &logits(), &Machine);
    assert!(matches!(noise_draw(&arena, 0), NoiseDraw::Certain));
    add_dirichlet_noise(&mut arena, 0, &Machine, &board, 0, &Vec::new());
    assert_eq!(num(arena[1].prior), 1.0);
    assert!(arena[0].noised && board.asked.borrow().is_empty());
}

#[test]
fn visits_become_a_policy() {
    let arena = rooted([1, 2, 1]);
    assert_eq!(root_visits(&arena, 0), vec![1, 2, 1]);
    let pi = visits_to_pi(&arena, 0, 1.0f64.to_bits(), &Machine);
    assert_eq!(pi.len(), POLICY_SIZE);
    assert_eq!(f32::from_bits(pi[100]), 0.25);
    assert_eq!(f32::from_bits(pi[200]), 0.5);
    assert_eq!(pi.iter().filter(|&&x| x != 0).count(), 3);
    let sharp = visits_to_pi(&arena, 0, 0.5f64.to_bits(), &Machine);
    assert_eq!(f32::from_bits(sharp[200]), (4.0f64 / 6.0) as f32);
}

#[test]
fn a_cold_policy_is_certain() {
    for zero in [0.0f64, -0.0] {
        let pi = visits_to_pi(&rooted([3, 7, 7]), 0, zero.to_bits(), &Machine);
        assert_eq!(f32::from_bits(pi[200]), 1.0);
        assert_eq!(pi.iter().filter(|&&x| x != 0).count(), 1);
    }
    let pi = visits_to_pi(&rooted([0, 0, 0]), 0, 1.0f64.to_bits(), &Machine);
    assert!(pi.iter().all(|&x| x == 0));
    let bare = vec![Node::new(0, -1)];
    assert!(visits_to_pi(&bare, 0, 0, &Machine).iter().all(|&x| x == 0));
}

#[test]
fn moves_are_sampled_by_visits() {
    let board = Boards::new(9);
    assert_eq!(most_visited(&vec![3, 7, 7]), 1);
    assert_eq!(most_visited(&vec![0, 0]), 0);
    let line = Vec::new();
    assert_eq!(sample_move(&rooted([3, 7, 9]), 0, 0, &board, 0, &line), 13);
    // Half of the visits lie below the threshold.
    assert_eq!(sample_move(&rooted([3, 1, 2]), 0, 1.0f64.to_bits(), &board, 0, &line), 12);
    assert_eq!(sample_move(&rooted([1, 1, 8]), 0, 1.0f64.to_bits(), &board, 0, &line), 13);
    let cumulative: Vec<u64> = [1.0f64, 2.0, 4.0].iter().map(|x| x.to_bits()).collect();
    assert_eq!(pick_above(&cumulative, 0.0f64.to_bits(), 3), 0);
    assert_eq!(pick_above(&cumulative, 1.0f64.to_bits(), 3), 1);
    assert_eq!(pick_above(&cumulative, 4.0f64.to_bits(), 3), 2);
    assert_eq!(pick_above(&cumulative, f64::NAN.to_bits(), 3), 2);
}

// --- subtrees ----------------------------------------------------------------

#[test]
fn a_subtree_keeps_its_shape() {
    let mut arena = rooted([1, 2, 3]);
    let legal = Boards::new(9).at(&[]).legal;
    expand_node(&mut arena, 3, &legal, &logits(), &Machine);
    expand_node(&mut arena, 2, &legal, &logits(), &Machine);
    arena[5].visit_count = 9;
    let mut copy = Vec::new();
    assert_eq!(copy_subtree(&arena, 3, &mut copy), 0);
    assert_eq!(copy.len(), 4);
    assert_eq!(copy[0].visit_count, 3);
    assert_eq!(copy[0].children, vec![(11, 1), (12, 2), (13, 3)]);
    assert_eq!(copy[2].visit_count, 9);
    assert_eq!(copy_subtree(&arena, 2, &mut copy), 4);
    assert_eq!(copy.len(), 8);
    let mut whole = Vec::new();
    copy_subtree(&arena, 0, &mut whole);
    assert_eq!(whole.len(), arena.len());
}

#[test]
fn advancing_keeps_the_subtree_of_the_move() {
    let board = Boards::new(9);
    let mut g = Game::from_board(board.start(0, None));
    g.arena = rooted([1, 2, 3]);
    advance_subtree(&mut g, 13);
    assert_eq!(g.arena.len(), 1);
    assert_eq!((g.arena[0].visit_count, g.arena[0].move_index), (3, 300));
    g.arena = rooted([1, 2, 3]);
    advance_subtree(&mut g, 99);
    assert_eq!(g.arena.len(), 1);
    assert_eq!((g.arena[0].visit_count, g.arena[0].move_index), (0, -1));
}

// --- games -------------------------------------------------------------------

#[test]
fn the_temperature_falls_after_the_opening() {
    for ply in 0..=20 {
        assert_eq!(steps_annealed(ply), 0);
    }
    assert_eq!(steps_annealed(21), 1);
    assert_eq!(steps_annealed(60), 40);
    assert_eq!(steps_annealed(1000), 40);
    let mut g = Game::from_board(Boards::new(9).start(0, None));
    assert_eq!(num(g.temperature(&Machine)), 1.0);
    for _ in 0..40 {
        let pi = vec![0; POLICY_SIZE];
        let mut line = g.line.clone();
        line.push(11);
        record_move(&mut g, pi, 11, line, Boards::new(99).start(0, None));
    }
    assert!((num(g.temperature(&Machine)) - 0.675).abs() < 1e-12);
}

#[test]
fn results_have_the_bits_of_the_machine() {
    for r in [-1i8, 0, 1] {
        assert_eq!(result_to_bits(r), (r as f32).to_bits());
    }
}

#[test]
fn a_move_is_recorded_and_played() {
    let board = Boards::new(2);
    let mut g = Game::from_board(board.start(0, None));
    g.arena = rooted([1, 6, 1]);
    step_move(&mut g, &Machine, &board, 0);
    assert_eq!(g.history.len(), 1);
    assert_eq!(f32::from_bits(g.history[0].pi[200]), 0.75);
    assert!(g.history[0].turn && !g.position.white_to_move);
    assert!(!g.done);
    assert_eq!(g.arena[0].visit_count, 6);
    assert_eq!(g.line, vec![12]);
    g.arena = rooted([5, 0, 0]);
    step_move(&mut g, &Machine, &board, 0);
    assert!(g.done);
    assert_eq!(g.result, 1);
    let rows = finalize_rows(&mut g);
    assert_eq!(rows.len(), 2);
    assert!(g.history.is_empty());
    assert_eq!(f32::from_bits(rows[0].z), 1.0);
    assert_eq!(f32::from_bits(rows[1].z), -1.0);
    assert_eq!(f32::from_bits(rows[1].state[0]), 1.0);
}

#[test]
fn a_long_game_is_drawn() {
    let board = Boards::new(1000);
    let mut g = Game::from_board(board.start(0, None));
    for ply in 0..MAX_PLIES {
        assert!(!g.done, "{}", ply);
        g.arena = rooted([1, 0, 0]);
        step_move(&mut g, &Machine, &board, 0);
    }
    assert!(g.done);
    assert_eq!(g.result, 0);
    let rows = finalize_rows(&mut g);
    assert_eq!(rows.len(), 256);
    assert!(rows.iter().all(|r| f32::from_bits(r.z) == 0.0));
    assert_eq!(rows[0].z, 0.0f32.to_bits());
    assert_eq!(rows[1].z, (-0.0f32).to_bits());
}

#[test]
fn positions_are_checked() {
    let board = Boards::new(1);
    assert!(board.at(&[]).is_valid());
    assert!(board.at(&[1]).is_valid());
    let mut p = board.at(&[]);
    p.legal[0].1 = -1;
    assert!(!p.is_valid());
    let mut p = board.at(&[]);
    p.legal[0].1 = POLICY_SIZE as i32;
    assert!(!p.is_valid());
    let mut p = board.at(&[]);
    p.enc.pop();
    assert!(!p.is_valid());
    let mut p = board.at(&[]);
    p.legal.clear();
    assert!(!p.is_valid());
    let mut p = board.at(&[1]);
    p.outcome = Some(2);
    assert!(!p.is_valid());
}

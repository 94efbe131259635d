use selfplay::cli::{
    candidate_name, default_threads, flag, has_switch, relative_to, require, served_file,
    snapshot_stem,
};
use selfplay::cohort::ROW_FLOATS;
use selfplay::frame::{push_words, write_cohort, write_frame, ROW_BYTES};
use selfplay::game::Row;
use selfplay::ieee::{argmax, gt, gt32, nan, neg, neg32, whole32, zero};
use selfplay::ring::{narrow, narrow_row, read_outputs, widen_outputs};
use selfplay::seeds::{game_seed, game_uid, mix64, slot_seed, worker_seed};
use selfplay::setup::{raise, AsyncMctsEngine, PipelineEngine};
use selfplay::tree::{ENC_LEN, POLICY_SIZE};
use selfplay::weights::{block_key, count_blocks, decimal, mangle, Reloader};

fn strings(words: &[&str]) -> Vec<String> {
    words.iter().map(|w| w.to_string()).collect()
}

const SAMPLES: [f64; 14] = [
    0.0,
    -0.0,
    1.0,
    -1.0,
    0.5,
    3.25,
    -7.75,
    1e300,
    -1e300,
    5e-324,
    f64::INFINITY,
    f64::NEG_INFINITY,
    f64::NAN,
    f64::MIN_POSITIVE,
];

// --- reals -------------------------------------------------------------------

#[test]
fn comparisons_agree_with_the_machine() {
    for &x in &SAMPLES {
        assert_eq!(nan(x.to_bits()), x.is_nan());
        assert_eq!(zero(x.to_bits()), x == 0.0);
        for &y in &SAMPLES {
            assert_eq!(gt(x.to_bits(), y.to_bits()), x > y, "{} > {}", x, y);
            let (a, b) = (x as f32, y as f32);
            assert_eq!(gt32(a.to_bits(), b.to_bits()), a > b, "{} > {}", a, b);
        }
    }
}

#[test]
fn negation_flips_the_sign_and_back() {
    for &x in &SAMPLES {
        let bits = x.to_bits();
        assert_eq!(neg(bits), (-x).to_bits());
        assert_eq!(neg(neg(bits)), bits);
        let short = (x as f32).to_bits();
        assert_eq!(neg32(short), (-(x as f32)).to_bits());
    }
    for &x in &SAMPLES {
        for &y in &SAMPLES {
            let (a, b) = (x.to_bits(), y.to_bits());
            assert_eq!(gt(a, b), gt(neg(b), neg(a)));
        }
    }
}

#[test]
fn the_order_of_reals_is_strict() {
    for &x in &SAMPLES {
        assert!(!gt(x.to_bits(), x.to_bits()));
        for &y in &SAMPLES {
            for &z in &SAMPLES {
                let (a, b, c) = (x.to_bits(), y.to_bits(), z.to_bits());
                if gt(a, b) && gt(b, c) {
                    assert!(gt(a, c));
                }
            }
        }
    }
}

fn bits(xs: &[f64]) -> Vec<u64> {
    xs.iter().map(|x| x.to_bits()).collect()
}

#[test]
fn argmax_takes_the_first_of_the_largest() {
    assert_eq!(argmax(&bits(&[1.0, 3.0, 2.0, 3.0])), 1);
    assert_eq!(argmax(&bits(&[-2.0, -1.0, -1.0])), 1);
    assert_eq!(argmax(&bits(&[0.0, -0.0])), 0);
    assert_eq!(argmax(&bits(&[-0.0, 0.0])), 0);
}

#[test]
fn argmax_passes_over_what_is_not_a_number() {
    assert_eq!(argmax(&bits(&[f64::NAN, 1.0, f64::NAN])), 1);
    assert_eq!(argmax(&bits(&[f64::NAN, f64::NAN])), 0);
    assert_eq!(argmax(&bits(&[f64::NEG_INFINITY, f64::NEG_INFINITY])), 0);
    assert_eq!(argmax(&[]), 0);
}

#[test]
fn whole_numbers_have_the_bits_of_the_machine() {
    for n in 0..POLICY_SIZE as u32 {
        assert_eq!(whole32(n), (n as f32).to_bits());
    }
    for n in [65535u32, 65536, 1 << 20, (1 << 24) - 1] {
        assert_eq!(whole32(n), (n as f32).to_bits());
    }
    assert_eq!(whole32(0), 0);
    assert_eq!(whole32(1), 0x3f80_0000);
    assert_eq!(whole32(3), 0x4040_0000);
}

// --- short numbers -----------------------------------------------------------

#[test]
fn narrowing_rounds_like_the_library_for_short_numbers() {
    let mut x: u32 = 1;
    for _ in 0..200_000 {
        x = x.wrapping_mul(1_664_525).wrapping_add(1_013_904_223);
        assert_eq!(narrow(x), half::bf16::from_f32(f32::from_bits(x)).to_bits(), "{:#x}", x);
    }
    for x in [0u32, 0x8000_0000, 0x7f80_0000, 0xff80_0000, 0x7fc0_0000, 0x7f80_0001, 0x7f7f_ffff] {
        assert_eq!(narrow(x), half::bf16::from_f32(f32::from_bits(x)).to_bits(), "{:#x}", x);
    }
}

#[test]
fn narrowing_breaks_ties_to_even() {
    assert_eq!(narrow(0x3f80_8000), 0x3f80);
    assert_eq!(narrow(0x3f81_8000), 0x3f82);
    assert_eq!(narrow(0x3f80_8001), 0x3f81);
    assert_eq!(narrow(0x3f80_7fff), 0x3f80);
    assert_eq!(narrow_row(&vec![0x3f80_8001, 0xbf80_0000]), vec![0x3f81, 0xbf80]);
}

#[test]
fn widening_reads_short_numbers_at_full_width() {
    let all: Vec<u16> = (0..=u16::MAX).collect();
    let wide = widen_outputs(&all, all.len());
    for (k, &w) in wide.iter().enumerate() {
        assert_eq!(w, half::bf16::from_bits(k as u16).to_f32().to_bits(), "{:#x}", k);
    }
    assert_eq!(widen_outputs(&vec![0x3f80, 0xc000], 1), vec![1.0f32.to_bits()]);
}

#[test]
fn widening_loses_nothing_of_a_short_number() {
    for k in 0..=u16::MAX {
        let wide = widen_outputs(&vec![k], 1)[0];
        if !f32::from_bits(wide).is_nan() {
            assert_eq!(narrow(wide), k);
        }
    }
}

#[test]
fn outputs_are_read_up_to_the_batch() {
    let logits: Vec<u16> = (0..2 * POLICY_SIZE).map(|i| (i % 0x4000) as u16).collect();
    let values: Vec<u16> = vec![0x3f80, 0xbf80, 0x4000];
    let (wide_logits, wide_values) = read_outputs(&logits, &values, 2);
    assert_eq!(wide_logits.len(), 2 * POLICY_SIZE);
    assert_eq!(wide_logits[5000], 5000u32 << 16);
    assert_eq!(wide_values, vec![1.0f32.to_bits(), (-1.0f32).to_bits()]);
}

// --- seeds -------------------------------------------------------------------

#[test]
fn mixing_gives_known_words() {
    assert_eq!(mix64(0), 0);
    assert_eq!(mix64(1), 0x5692_161d_100b_05e5);
    assert_eq!(mix64(2), 0xdbd2_3897_3a2b_148a);
    assert_eq!(mix64(u64::MAX), 0xb4d0_55fc_f2cb_bd7b);
    assert_eq!(mix64(1234), 0x182a_ae38_cfcc_b83f);
    assert_eq!(game_seed(1234, 7), 0xe8c5_78ab_2e6e_e90e);
}

#[test]
fn mixing_does_not_collide() {
    let mut seen: Vec<u64> = (0..50_000u64).map(mix64).collect();
    seen.sort();
    seen.dedup();
    assert_eq!(seen.len(), 50_000);
}

#[test]
fn seeds_of_games_slots_and_workers_differ() {
    let mut games: Vec<u64> = (0..2000).map(|id| game_seed(99, id)).collect();
    games.sort();
    games.dedup();
    assert_eq!(games.len(), 2000);
    let mut slots: Vec<u64> = (0..2000).map(|gi| slot_seed(99, gi, 3)).collect();
    slots.extend((0..3u32).map(|generation| slot_seed(99, 5, generation)));
    slots.sort();
    slots.dedup();
    assert_eq!(slots.len(), 2003);
    assert_eq!(worker_seed(10, 0), 10);
    assert_eq!(worker_seed(10, 1), 10u64.wrapping_add(0x9E37_79B9_7F4A_7C15));
    assert_ne!(worker_seed(10, 2), worker_seed(10, 1));
}

#[test]
fn slot_seeds_follow_the_formula() {
    let a = 7u64.wrapping_mul(0x9E37_79B9_7F4A_7C15);
    let b = 3u64.wrapping_mul(0xD1B5_4A32_D192_ED03);
    assert_eq!(slot_seed(42, 7, 2), mix64(42 ^ mix64(a ^ b)));
}

#[test]
fn game_identifiers_hold_slot_and_generation() {
    assert_eq!(game_uid(5, 0), 5);
    assert_eq!(game_uid(5, 2), 5 + (2u64 << 32));
    assert_ne!(game_uid(1, 2), game_uid(2, 1));
}

// --- bytes -------------------------------------------------------------------

fn row(seed: u32) -> Row {
    Row {
        state: (0..ENC_LEN as u32).map(|i| i.wrapping_mul(seed)).collect(),
        pi: (0..POLICY_SIZE as u32).map(|i| i ^ seed).collect(),
        z: (-1.0f32).to_bits(),
    }
}

#[test]
fn words_are_written_lowest_byte_first() {
    let mut out: Vec<u8> = vec![9];
    push_words(&mut out, &vec![0x0403_0201, 0x3f80_0000]);
    assert_eq!(out, vec![9, 1, 2, 3, 4, 0, 0, 0x80, 0x3f]);
}

#[test]
fn a_frame_holds_the_rows_of_a_game() {
    assert_eq!(ROW_BYTES, 4 * (1152 + 4672 + 1));
    assert_eq!(write_frame(&Vec::new()), vec![0, 0, 0, 0]);
    let rows = vec![row(3), row(77)];
    let frame = write_frame(&rows);
    assert_eq!(frame.len(), 4 + 2 * ROW_BYTES);
    let word = |i: usize| {
        let at = 4 * i;
        u32::from_le_bytes([frame[at], frame[at + 1], frame[at + 2], frame[at + 3]])
    };
    assert_eq!(word(0), 2);
    let mut at = 1;
    for r in &rows {
        for &x in r.state.iter().chain(r.pi.iter()).chain([r.z].iter()) {
            assert_eq!(word(at), x);
            at += 1;
        }
    }
    assert_eq!(4 * at, frame.len());
}

#[test]
fn frames_of_different_rows_differ() {
    assert_ne!(write_frame(&vec![row(3)]), write_frame(&vec![row(4)]));
    assert_ne!(write_frame(&vec![row(3)]), write_frame(&vec![row(3), row(3)]));
}

#[test]
fn a_cohort_starts_with_its_shape() {
    assert_eq!(ROW_FLOATS, 5826);
    let out = write_cohort(&vec![vec![1], vec![], vec![2, 3]], 7);
    let mut want: Vec<u8> = Vec::new();
    for x in [7u32, 5826, 1, 2, 3] {
        want.extend(x.to_le_bytes());
    }
    assert_eq!(out, want);
}

// --- command lines -----------------------------------------------------------

#[test]
fn a_flag_takes_the_argument_behind_it() {
    let args = strings(&["prog", "--sims", "50", "--seed", "9", "--sims", "70"]);
    assert_eq!(flag(&args, "--sims", "200"), "50");
    assert_eq!(flag(&args, "--seed", "0"), "9");
    assert_eq!(flag(&args, "--run", "420"), "420");
}

#[test]
fn a_flag_without_a_value_has_its_default() {
    let args = strings(&["prog", "--cpu", "--sims"]);
    assert_eq!(flag(&args, "--sims", "200"), "200");
    assert_eq!(flag(&[], "--sims", "200"), "200");
    assert!(has_switch(&args, "--cpu"));
    assert!(!has_switch(&args, "--fit-only"));
}

#[test]
fn a_required_flag_may_not_be_empty() {
    let args = strings(&["prog", "--run-dir", "runs/run1", "--candidate", ""]);
    assert_eq!(require(&args, "--run-dir"), Some("runs/run1".to_string()));
    assert_eq!(require(&args, "--candidate"), None);
    assert_eq!(require(&args, "--seed"), None);
}

#[test]
fn commands_run_sixteen_workers_by_default() {
    assert_eq!(default_threads(), 16);
}

#[test]
fn snapshots_are_named_by_their_stem() {
    assert_eq!(snapshot_stem("runs/run1/snap_000100.safetensors"), "snap_000100");
    assert_eq!(snapshot_stem("a.b.onnx"), "a.b");
    assert_eq!(snapshot_stem("dir.d/plain"), "plain");
    assert_eq!(snapshot_stem(".hidden"), ".hidden");
    assert_eq!(snapshot_stem("x/snap.pt/."), "snap");
    assert_eq!(snapshot_stem("x/snap.pt//"), "snap");
}

#[test]
fn a_path_without_a_file_names_itself() {
    assert_eq!(snapshot_stem(".."), "..");
    assert_eq!(snapshot_stem("runs/.."), "runs/..");
    assert_eq!(snapshot_stem(""), "");
    assert_eq!(snapshot_stem("/"), "/");
    assert_eq!(candidate_name("runs/.."), None);
    assert_eq!(candidate_name("runs/snap.safetensors"), Some("snap".to_string()));
}

#[test]
fn paths_are_written_from_the_directory_of_the_run() {
    assert_eq!(relative_to("runs/run1", "runs/run1/snaps/a.safetensors"), "snaps/a.safetensors");
    assert_eq!(relative_to("/runs", "/runs/a.onnx"), "a.onnx");
    assert_eq!(relative_to("runs", "runs"), "");
    assert_eq!(relative_to("runs/run", "runs/run1/a.onnx"), "runs/run1/a.onnx");
    assert_eq!(relative_to("runs", "/runs/a.onnx"), "/runs/a.onnx");
    assert_eq!(relative_to("runs/../x", "runs/../x/.a"), ".a");
}

#[test]
fn the_served_file_lies_beside_the_snapshot() {
    assert_eq!(served_file("runs/run1/snap_000100.safetensors"), "runs/run1/snap_000100.onnx");
    assert_eq!(served_file("a.b.st"), "a.b.onnx");
    assert_eq!(served_file("dir.d/plain"), "dir.d/plain.onnx");
    assert_eq!(served_file("/x/.hidden"), "/x/.hidden.onnx");
    assert_eq!(served_file("runs/.."), "runs/..");
}

// --- weights -----------------------------------------------------------------

#[test]
fn dots_become_underscores() {
    assert_eq!(mangle("tower.0.bn1.running_mean"), "tower_0_bn1_running_mean");
    assert_eq!(mangle("stem"), "stem");
    assert_eq!(mangle("..\u{e9}."), "__\u{e9}_");
    assert_eq!(mangle(""), "");
}

#[test]
fn blocks_are_counted_up_to_the_first_gap() {
    for n in [0usize, 7, 10, 99, 100, 1234567890] {
        assert_eq!(decimal(n), n.to_string());
    }
    assert_eq!(block_key(12), "tower.12.conv1.weight");
    let mut names: Vec<String> = (0..11).rev().map(block_key).collect();
    names.push("stem_conv.weight".to_string());
    assert_eq!(count_blocks(&names), 11);
    names.push(block_key(12));
    assert_eq!(count_blocks(&names), 11);
    names.push(block_key(11));
    assert_eq!(count_blocks(&names), 13);
    assert_eq!(count_blocks(&Vec::new()), 0);
    assert_eq!(count_blocks(&vec![block_key(1)]), 0);
}

#[test]
fn weights_are_loaded_when_the_file_changed() {
    let mut r = Reloader::new(15, 100, Some(7));
    assert!(!r.is_due(114));
    assert_eq!(r.last_check, 100);
    assert!(r.is_due(115));
    assert_eq!(r.last_check, 115);
    assert!(!r.is_due(129));
    assert!(!r.wants(None));
    assert!(!r.wants(Some(7)));
    assert!(r.wants(Some(8)));
    r.note(Some(8));
    assert!(!r.wants(Some(8)));
    assert!(Reloader::new(15, 0, None).wants(Some(1)));
}

// --- setup -------------------------------------------------------------------

#[test]
fn engines_have_a_worker_and_a_batch() {
    assert_eq!(raise(0, 1), 1);
    assert_eq!(raise(5, 1), 5);
    let p = PipelineEngine::new(10, 3, true, 0, 0);
    assert_eq!((p.n_threads, p.bucket_size), (1, 1));
    assert_eq!(p.config().bucket_size, 1);
    let p = PipelineEngine::new(10, 3, false, 4, 64);
    assert_eq!((p.n_threads, p.bucket_size), (4, 64));
    assert_eq!(p.config().seed, 3);
    let e = AsyncMctsEngine::new(5, 10, 3, true, 0, 0);
    assert_eq!((e.n_threads, e.max_batch), (1, 1));
    let c = AsyncMctsEngine::new(5, 10, 3, true, 8, 32).config(false);
    assert_eq!((c.sims, c.master_seed, c.max_batch, c.refill), (10, 3, 32, false));
}

#[test]
fn every_worker_has_a_share_of_the_games() {
    let e = AsyncMctsEngine::new(7, 10, 3, true, 3, 32);
    assert_eq!(e.shares(), vec![vec![0, 1, 2], vec![3, 4], vec![5, 6]]);
    let e = AsyncMctsEngine::new(2, 10, 3, true, 8, 32);
    assert_eq!(e.shares(), vec![vec![0], vec![1]]);
    let none: Vec<Vec<usize>> = Vec::new();
    assert_eq!(AsyncMctsEngine::new(0, 10, 3, true, 8, 32).shares(), none);
}

//! Seeds and identifiers of games.

use vstd::prelude::*;

verus! {

/// Multiplier of the first mixing round.
pub const MIX_A: u64 = 0xbf58_476d_1ce4_e5b9;

/// Multiplier of the second mixing round.
pub const MIX_B: u64 = 0x94d0_49bb_1331_11eb;

/// Multiplier that spreads game and slot numbers.
pub const SPREAD: u64 = 0x9E37_79B9_7F4A_7C15;

/// Multiplier that spreads generations.
pub const SPREAD_GENERATION: u64 = 0xD1B5_4A32_D192_ED03;

/// A product of which the upper half is dropped.
pub open spec fn wrapped(x: u64, y: u64) -> u64 {
    (x * y % 0x1_0000_0000_0000_0000) as u64
}

/// Two rounds of folding the upper bits in and multiplying, and a last fold.
pub open spec fn mixed(z: u64) -> u64 {
    let a = wrapped(z ^ (z >> 30), MIX_A);
    let b = wrapped(a ^ (a >> 27), MIX_B);
    b ^ (b >> 31)
}

/// Scrambles the bits of a number.
pub fn mix64(z: u64) -> (r: u64)
    ensures
        r == mixed(z),
{
    let a = (z ^ (z >> 30)).wrapping_mul(MIX_A);
    let b = (a ^ (a >> 27)).wrapping_mul(MIX_B);
    b ^ (b >> 31)
}

/// Multiplying by a number that has an inverse loses nothing.
proof fn lemma_wrapped_inverse(x: u64, m: u64, inverse: u64)
    requires
        m * inverse % 0x1_0000_0000_0000_0000 == 1,
    ensures
        wrapped(wrapped(x, m), inverse) == x,
{
    let n = 0x1_0000_0000_0000_0000int;
    let xi = x as int;
    let mi = m as int;
    let vi = inverse as int;
    vstd::arithmetic::div_mod::lemma_mul_mod_noop_left(xi * mi, vi, n);
    assert((xi * mi) * vi == xi * (mi * vi)) by (nonlinear_arith);
    vstd::arithmetic::div_mod::lemma_mul_mod_noop_right(xi, mi * vi, n);
    vstd::arithmetic::div_mod::lemma_small_mod(x as nat, n as nat);
}

proof fn lemma_wrapped_injective(x: u64, y: u64, m: u64, inverse: u64)
    requires
        m * inverse % 0x1_0000_0000_0000_0000 == 1,
        wrapped(x, m) == wrapped(y, m),
    ensures
        x == y,
{
    lemma_wrapped_inverse(x, m, inverse);
    lemma_wrapped_inverse(y, m, inverse);
}

/// Different numbers are mixed into different numbers.
pub proof fn mixing_is_injective(x: u64, y: u64)
    requires
        mixed(x) == mixed(y),
    ensures
        x == y,
{
    let ax = wrapped(x ^ (x >> 30), MIX_A);
    let ay = wrapped(y ^ (y >> 30), MIX_A);
    let bx = wrapped(ax ^ (ax >> 27), MIX_B);
    let by = wrapped(ay ^ (ay >> 27), MIX_B);
    assert(bx ^ (bx >> 31) == by ^ (by >> 31) ==> bx == by) by (bit_vector);
    lemma_wrapped_injective(ax ^ (ax >> 27), ay ^ (ay >> 27), MIX_B, 0x3196_42b2_d24d_8ec3);
    assert(ax ^ (ax >> 27) == ay ^ (ay >> 27) ==> ax == ay) by (bit_vector);
    lemma_wrapped_injective(x ^ (x >> 30), y ^ (y >> 30), MIX_A, 0x96de_1b17_3f11_9089);
    assert(x ^ (x >> 30) == y ^ (y >> 30) ==> x == y) by (bit_vector);
}

/// Seed of the game with the given number.
pub open spec fn seed_of_game(master: u64, id: u64) -> u64 {
    mixed(master ^ mixed(wrapped(id, SPREAD)))
}

/// Seed of the game with the given number.
pub fn game_seed(master: u64, id: u64) -> (seed: u64)
    ensures
        seed == seed_of_game(master, id),
{
    mix64(master ^ mix64(id.wrapping_mul(SPREAD)))
}

/// No two games of a run get the same seed.
pub proof fn game_seeds_differ(master: u64, x: u64, y: u64)
    requires
        x != y,
    ensures
        seed_of_game(master, x) != seed_of_game(master, y),
{
    if seed_of_game(master, x) == seed_of_game(master, y) {
        let mx = mixed(wrapped(x, SPREAD));
        let my = mixed(wrapped(y, SPREAD));
        mixing_is_injective(master ^ mx, master ^ my);
        assert(master ^ mx == master ^ my ==> mx == my) by (bit_vector);
        mixing_is_injective(wrapped(x, SPREAD), wrapped(y, SPREAD));
        lemma_wrapped_injective(x, y, SPREAD, 0xf1de_83e1_9937_733d);
    }
}

/// Seed of the given generation of games in a slot.
pub open spec fn seed_of_slot(master: u64, slot: u64, generation: u32) -> u64 {
    mixed(
        master ^ mixed(
            wrapped(slot, SPREAD) ^ wrapped((generation + 1) as u64, SPREAD_GENERATION),
        ),
    )
}

/// Seed of the `generation`-th game in slot `gi`. It depends on the slot alone, not on
/// how slots are dealt out to workers.
pub fn slot_seed(master: u64, gi: usize, generation: u32) -> (seed: u64)
    ensures
        seed == seed_of_slot(master, gi as u64, generation),
{
    let a = (gi as u64).wrapping_mul(SPREAD);
    let b = (generation as u64).wrapping_add(1).wrapping_mul(SPREAD_GENERATION);
    mix64(master ^ mix64(a ^ b))
}

/// Within a generation no two slots get the same seed, and a slot never gets the same
/// seed twice.
pub proof fn slot_seeds_differ(
    master: u64,
    slot: u64,
    generation: u32,
    other_slot: u64,
    other_generation: u32,
)
    requires
        slot == other_slot || generation == other_generation,
        slot != other_slot || generation != other_generation,
    ensures
        seed_of_slot(master, slot, generation) != seed_of_slot(
            master,
            other_slot,
            other_generation,
        ),
{
    if seed_of_slot(master, slot, generation) == seed_of_slot(
        master,
        other_slot,
        other_generation,
    ) {
        let a = wrapped(slot, SPREAD);
        let b = wrapped((generation + 1) as u64, SPREAD_GENERATION);
        let c = wrapped(other_slot, SPREAD);
        let d = wrapped((other_generation + 1) as u64, SPREAD_GENERATION);
        let mx = mixed(a ^ b);
        let my = mixed(c ^ d);
        mixing_is_injective(master ^ mx, master ^ my);
        assert(master ^ mx == master ^ my ==> mx == my) by (bit_vector);
        mixing_is_injective(a ^ b, c ^ d);
        if slot == other_slot {
            assert(a ^ b == a ^ d ==> b == d) by (bit_vector);
            lemma_wrapped_injective(
                (generation + 1) as u64,
                (other_generation + 1) as u64,
                SPREAD_GENERATION,
                0x0610_6ccf_a448_e5ab,
            );
        } else {
            assert(a ^ b == c ^ b ==> a == c) by (bit_vector);
            lemma_wrapped_injective(slot, other_slot, SPREAD, 0xf1de_83e1_9937_733d);
        }
    }
}

/// Identifier of the `generation`-th game in a slot.
pub open spec fn uid_of(slot: u64, generation: u32) -> u64 {
    slot | ((generation as u64) << 32)
}

/// Identifier of the `generation`-th game in a slot.
pub fn game_uid(global_index: usize, generation: u32) -> (uid: u64)
    ensures
        uid == uid_of(global_index as u64, generation),
{
    (global_index as u64) | ((generation as u64) << 32)
}

/// Games of different slots or generations have different identifiers, as long as slot
/// numbers fit in half a word.
pub proof fn game_uids_differ(
    slot: u64,
    generation: u32,
    other_slot: u64,
    other_generation: u32,
)
    requires
        slot <= u32::MAX,
        other_slot <= u32::MAX,
        slot != other_slot || generation != other_generation,
    ensures
        uid_of(slot, generation) != uid_of(other_slot, other_generation),
{
    assert(slot <= 0xffff_ffff && other_slot <= 0xffff_ffff && (slot | ((generation as u64) << 32))
        == (other_slot | ((other_generation as u64) << 32)) ==> slot == other_slot && generation
        == other_generation) by (bit_vector);
}

/// Seed of worker `i`.
pub open spec fn seed_of_worker(master: u64, i: u64) -> u64 {
    ((master + wrapped(i, SPREAD)) % 0x1_0000_0000_0000_0000) as u64
}

/// Seed of worker `i`.
pub fn worker_seed(master: u64, i: usize) -> (seed: u64)
    ensures
        seed == seed_of_worker(master, i as u64),
{
    master.wrapping_add((i as u64).wrapping_mul(SPREAD))
}

/// No two workers get the same seed.
pub proof fn worker_seeds_differ(master: u64, x: u64, y: u64)
    requires
        x != y,
    ensures
        seed_of_worker(master, x) != seed_of_worker(master, y),
{
    if seed_of_worker(master, x) == seed_of_worker(master, y) {
        lemma_wrapped_injective(x, y, SPREAD, 0xf1de_83e1_9937_733d);
    }
}

} // verus!

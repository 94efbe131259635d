//! Batches in memory that the network reads in place: a ring of numbered slots, each
//! with room for one batch.
//!
//! A slot is in use from the moment workers start to fill it until its outputs have been
//! read. It is then free again, and only then may it be filled anew.

use crate::ieee::Real32;
use crate::inflight::InFlight;
use crate::tree::POLICY_SIZE;
use std::collections::VecDeque;
use vstd::prelude::*;

verus! {

// --- short numbers -----------------------------------------------------------

/// A number cut to its upper half, rounded to nearest, ties to even. What is not a number
/// stays that, and becomes quiet.
pub open spec fn narrowed(x: Real32) -> u16 {
    let high = x / 0x1_0000;
    let low = x % 0x1_0000;
    if x % 0x8000_0000 > 0x7f80_0000 {
        ((x >> 16) | 0x40) as u16
    } else if low > 0x8000 || (low == 0x8000 && high % 2 == 1) {
        (high + 1) as u16
    } else {
        high as u16
    }
}

/// Rounds a number to its upper half.
pub fn narrow(x: Real32) -> (bits: u16)
    ensures
        bits == narrowed(x),
{
    assert(x & 0x7fff_ffff == x % 0x8000_0000) by (bit_vector);
    assert(x >> 16 == x / 0x1_0000) by (bit_vector);
    if x & 0x7fff_ffff > 0x7f80_0000 {
        return ((x >> 16) | 0x40) as u16;
    }
    let round_bit: u32 = 0x8000;
    assert(((x & 0x8000) != 0 && (x & 0x1_7fff) != 0) == (x % 0x1_0000 > 0x8000 || (x % 0x1_0000
        == 0x8000 && (x / 0x1_0000) % 2 == 1))) by (bit_vector);
    if (x & round_bit) != 0 && (x & (3 * round_bit - 1)) != 0 {
        assert(x % 0x8000_0000 <= 0x7f80_0000 ==> x / 0x1_0000 < 0xffff) by (bit_vector);
        (x >> 16) as u16 + 1
    } else {
        (x >> 16) as u16
    }
}

/// A short number at full width; what is not a number becomes quiet.
pub open spec fn widened(bits: u16) -> Real32 {
    if bits % 0x8000 > 0x7f80 {
        (((bits | 0x40) as int) * 0x1_0000) as u32
    } else {
        (bits * 0x1_0000) as u32
    }
}

/// A short number at full width: the bits become the upper half of the result, whose lower half
/// is zero, and what is not a number gets its quiet bit.
fn widen(bits: u16) -> (x: Real32)
    ensures
        x == widened(bits),
{
    assert(bits & 0x7fff == bits % 0x8000) by (bit_vector);
    let quiet: u16 = bits | 0x40;
    assert((quiet as u32) << 16 == quiet * 0x1_0000) by (bit_vector);
    assert((bits as u32) << 16 == bits * 0x1_0000) by (bit_vector);
    if bits & 0x7fff > 0x7f80 {
        (quiet as u32) << 16
    } else {
        (bits as u32) << 16
    }
}

/// A short number that is a number survives being widened and rounded again.
pub proof fn widening_loses_nothing(bits: u16)
    requires
        bits % 0x8000 <= 0x7f80,
    ensures
        narrowed(widened(bits)) == bits,
{
    let x = widened(bits);
    assert(x == bits * 0x1_0000);
    assert(x % 0x8000_0000 == (bits % 0x8000) * 0x1_0000);
}

/// Rounds an encoded position to short numbers, for the input of the network.
pub fn narrow_row(enc: &Vec<Real32>) -> (row: Vec<u16>)
    ensures
        row@ == enc@.map_values(|x: Real32| narrowed(x)),
{
    let mut row: Vec<u16> = Vec::new();
    let mut i: usize = 0;
    while i < enc.len()
        invariant
            0 <= i <= enc@.len(),
            row@ == enc@.take(i as int).map_values(|x: Real32| narrowed(x)),
        decreases enc@.len() - i,
    {
        row.push(narrow(enc[i]));
        assert(row@ =~= enc@.take(i + 1).map_values(|x: Real32| narrowed(x)));
        i += 1;
    }
    assert(row@ =~= enc@.map_values(|x: Real32| narrowed(x)));
    row
}

/// The first `n` outputs of the network at full width.
pub fn widen_outputs(out: &Vec<u16>, n: usize) -> (wide: Vec<Real32>)
    requires
        n <= out@.len(),
    ensures
        wide@ == out@.take(n as int).map_values(|bits: u16| widened(bits)),
{
    let mut wide: Vec<Real32> = Vec::new();
    let mut i: usize = 0;
    while i < n
        invariant
            0 <= i <= n <= out@.len(),
            wide@ == out@.take(i as int).map_values(|bits: u16| widened(bits)),
        decreases n - i,
    {
        wide.push(widen(out[i]));
        assert(wide@ =~= out@.take(i + 1).map_values(|bits: u16| widened(bits)));
        i += 1;
    }
    wide
}

/// The outputs of a slot for `m` games: their policies, row after row, and their values.
pub fn read_outputs(logits: &Vec<u16>, values: &Vec<u16>, m: usize) -> (out: (
    Vec<Real32>,
    Vec<Real32>,
))
    requires
        m * POLICY_SIZE <= logits@.len(),
        m <= values@.len(),
    ensures
        out.0@ == logits@.take(m * POLICY_SIZE).map_values(|bits: u16| widened(bits)),
        out.1@ == values@.take(m as int).map_values(|bits: u16| widened(bits)),
{
    assert(logits@.len() == logits.len());
    (widen_outputs(logits, m * POLICY_SIZE), widen_outputs(values, m))
}

// --- slots -------------------------------------------------------------------

/// A slot with the games of its rows.
pub struct RingBucket {
    pub slot: usize,
    pub games: Vec<Box<InFlight>>,
}

/// The slots of a ring that are not in service with the network.
pub struct RingState {
    /// Workers fill this slot.
    pub active: RingBucket,
    /// Full slots that wait for the network, first come first served.
    pub ready: VecDeque<RingBucket>,
    /// Slots that are not in use; the last one is taken first.
    pub free: Vec<usize>,
    /// Number of slots.
    pub slots: usize,
    /// Games per slot.
    pub rows: usize,
}

/// The slots that the ring holds: free ones, waiting ones and the active one.
pub open spec fn held(s: RingState) -> Seq<usize> {
    s.free@ + s.ready@.map_values(|rb: RingBucket| rb.slot) + seq![s.active.slot]
}

/// Every slot is held at most once, the active slot has no more games than rows, and the
/// waiting ones have a game in each row.
pub open spec fn ring_wf(s: RingState) -> bool {
    &&& 0 < s.rows
    &&& held(s).no_duplicates()
    &&& forall|k: int| 0 <= k < held(s).len() ==> #[trigger] held(s)[k] < s.slots
    &&& s.active.games@.len() <= s.rows
    &&& forall|k: int| 0 <= k < s.ready@.len() ==> (#[trigger] s.ready@[k]).games@.len() == s.rows
}

/// The two rings have the same size.
pub open spec fn same_size(x: RingState, y: RingState) -> bool {
    x.slots == y.slots && x.rows == y.rows
}

/// Why a ring cannot be set up.
#[derive(Clone, Copy, PartialEq, Eq, Structural, Debug)]
pub enum RingError {
    /// A row of policies does not have as many entries as a policy.
    LogitStride,
}

/// What became of a game that a worker brought.
pub enum RingOffer {
    /// It has the given row of the given slot. `input` is to be written there before the
    /// ring is used again.
    Placed {
        slot: usize,
        row: usize,
        input: Vec<u16>,
        /// A full slot started to wait for the network.
        handed_over: bool,
    },
    /// The active slot is full and no slot is free; the game comes back.
    Blocked(Box<InFlight>),
}

/// The full active slot starts to wait, and the free slot that is taken becomes active.
pub open spec fn rotates(before: RingState, after: RingState) -> bool {
    &&& same_size(before, after)
    &&& before.free@.len() > 0
    &&& after.free@ == before.free@.drop_last()
    &&& after.ready@ == before.ready@.push(before.active)
    &&& after.active.slot == before.free@.last()
    &&& after.active.games@.len() == 0
}

/// A game is appended to the active slot.
pub open spec fn joins(before: RingState, after: RingState, g: Box<InFlight>) -> bool {
    &&& same_size(before, after)
    &&& after.free@ == before.free@
    &&& after.ready@ == before.ready@
    &&& after.active.slot == before.active.slot
    &&& after.active.games@ == before.active.games@.push(g)
}

/// What bringing a game to the ring does. A full active slot is exchanged for a free one
/// first; without a free one nothing changes. The game then takes the next row of the active
/// slot, and a slot that became full is exchanged if a slot is free.
pub open spec fn brings(
    before: RingState,
    after: RingState,
    g: Box<InFlight>,
    offer: RingOffer,
) -> bool {
    if before.active.games@.len() < before.rows {
        settles(before, after, g, offer, false)
    } else if before.free@.len() == 0 {
        offer == RingOffer::Blocked(g) && after == before
    } else {
        exists|mid: RingState| #[trigger]
            rotates(before, mid) && settles(mid, after, g, offer, true)
    }
}

/// The game takes the next row of the active slot, and a slot that became full is
/// exchanged if a slot is free. `rotated` tells whether one was exchanged before.
pub open spec fn settles(
    before: RingState,
    after: RingState,
    g: Box<InFlight>,
    offer: RingOffer,
    rotated: bool,
) -> bool {
    &&& offer matches RingOffer::Placed { slot, row, input, handed_over } && {
        &&& slot == before.active.slot
        &&& row == before.active.games@.len()
        &&& input@ == g.staged_enc@.map_values(|x: Real32| narrowed(x))
        &&& handed_over == (rotated || (row + 1 == before.rows && before.free@.len() > 0))
    }
    &&& exists|mid: RingState| #[trigger]
        joins(before, mid, g) && if mid.active.games@.len() == mid.rows && mid.free@.len() > 0 {
            rotates(mid, after)
        } else {
            after == mid
        }
}

/// Exchanging slots neither loses nor doubles one.
proof fn lemma_rotation(before: RingState, after: RingState)
    requires
        ring_wf(before),
        rotates(before, after),
        before.active.games@.len() == before.rows,
    ensures
        ring_wf(after),
        held(after).to_set() == held(before).to_set(),
{
    let x = held(before);
    let y = held(after);
    let f = before.free@.len() as int;
    let r = before.ready@.len() as int;
    assert(before.ready@.map_values(|rb: RingBucket| rb.slot).len() == r);
    assert(after.ready@.map_values(|rb: RingBucket| rb.slot) =~= before.ready@.map_values(
        |rb: RingBucket| rb.slot,
    ).push(before.active.slot));
    assert(x.len() == f + r + 1 && y.len() == f + r + 1);
    // The free slot that is taken goes to the end, and everything after it moves up.
    let from = |k: int|
        if k < f - 1 {
            k
        } else if k < f + r {
            k + 1
        } else {
            f - 1
        };
    assert forall|k: int| 0 <= k < y.len() implies #[trigger] y[k] == x[from(k)] by {
        if k < f - 1 {
        } else if k < f + r {
            let i = k - (f - 1);
            if i < r {
                assert(after.ready@[i] == before.ready@[i]);
            }
        }
    }
    assert forall|i: int, j: int| 0 <= i < y.len() && 0 <= j < y.len() && i != j implies y[i]
        != y[j] by {
        assert(y[i] == x[from(i)] && y[j] == x[from(j)]);
        assert(from(i) != from(j));
    }
    assert forall|k: int| 0 <= k < y.len() implies #[trigger] y[k] < before.slots by {
        assert(x[from(k)] < before.slots);
    }
    assert forall|v: usize| y.to_set().contains(v) == x.to_set().contains(v) by {
        if y.contains(v) {
            let k = choose|k: int| 0 <= k < y.len() && y[k] == v;
            assert(x[from(k)] == v);
        }
        if x.contains(v) {
            let k = choose|k: int| 0 <= k < x.len() && x[k] == v;
            let to = if k < f - 1 {
                k
            } else if k == f - 1 {
                f + r
            } else {
                k - 1
            };
            assert(from(to) == k);
            assert(y[to] == v);
        }
    }
    assert(y.to_set() =~= x.to_set());
    assert forall|k: int| 0 <= k < after.ready@.len() implies (
    #[trigger] after.ready@[k]).games@.len() == before.rows by {
        if k < r {
            assert(after.ready@[k] == before.ready@[k]);
        }
    }
}

impl RingState {
    /// The slots of a new ring: slot 0 is active and the others are free. A ring has at
    /// least one slot; without input memory there is no ring.
    pub fn new(inputs: usize, n_slots: usize, logit_stride: usize, rows: usize) -> (ring: Result<
        Option<Self>,
        RingError,
    >)
        requires
            0 < rows,
        ensures
            match ring {
                Ok(None) => inputs == 0,
                Ok(Some(s)) => {
                    &&& inputs > 0
                    &&& logit_stride == POLICY_SIZE
                    &&& s.active.slot == 0
                    &&& s.active.games@.len() == 0
                    &&& s.ready@.len() == 0
                    &&& s.slots == if n_slots > 0 {
                        n_slots
                    } else {
                        1
                    }
                    &&& s.free@ == Seq::new((s.slots - 1) as nat, |k: int| (k + 1) as usize)
                    &&& s.rows == rows
                    &&& ring_wf(s)
                },
                Err(RingError::LogitStride) => inputs > 0 && logit_stride != POLICY_SIZE,
            },
    {
        if inputs == 0 {
            return Ok(None);
        }
        if logit_stride != POLICY_SIZE {
            return Err(RingError::LogitStride);
        }
        let slots: usize = if n_slots > 0 {
            n_slots
        } else {
            1
        };
        let mut free: Vec<usize> = Vec::new();
        let mut k: usize = 1;
        while k < slots
            invariant
                1 <= k <= slots,
                free@ == Seq::new((k - 1) as nat, |i: int| (i + 1) as usize),
            decreases slots - k,
        {
            free.push(k);
            assert(free@ =~= Seq::new(k as nat, |i: int| (i + 1) as usize));
            k += 1;
        }
        let s = RingState {
            active: RingBucket { slot: 0, games: Vec::new() },
            ready: VecDeque::new(),
            free,
            slots,
            rows,
        };
        proof {
            let h = held(s);
            assert(h.len() == slots);
            assert forall|i: int| 0 <= i < h.len() implies #[trigger] h[i] == (if i < slots - 1 {
                i + 1
            } else {
                0
            }) by {}
            assert(h.no_duplicates());
        }
        Ok(Some(s))
    }

    fn rotate(&mut self, slot: usize)
        requires
            old(self).free@.len() > 0,
            slot == old(self).free@.last(),
        ensures
            rotates(*old(self), *final(self)),
    {
        let _ = self.free.pop();
        let mut full = RingBucket { slot, games: Vec::new() };
        std::mem::swap(&mut self.active, &mut full);
        self.ready.push_back(full);
    }

    /// Brings a game with a staged position to the ring.
    pub fn push_ring(&mut self, g: Box<InFlight>) -> (offer: RingOffer)
        requires
            ring_wf(*old(self)),
        ensures
            brings(*old(self), *final(self), g, offer),
            ring_wf(*final(self)),
            held(*final(self)).to_set() == held(*old(self)).to_set(),
            same_size(*old(self), *final(self)),
    {
        let ghost start = *self;
        let mut rotated = false;
        if self.active.games.len() >= self.rows {
            let k: usize = self.free.len();
            if k == 0 {
                return RingOffer::Blocked(g);
            }
            let slot: usize = self.free[k - 1];
            self.rotate(slot);
            rotated = true;
            proof {
                lemma_rotation(start, *self);
            }
        }
        let ghost mid = *self;
        let slot: usize = self.active.slot;
        let row: usize = self.active.games.len();
        let input = narrow_row(&g.staged_enc);
        self.active.games.push(g);
        let ghost joined = *self;
        assert(joins(mid, joined, g));
        assert(held(joined) =~= held(mid));
        let mut handed_over = rotated;
        let k: usize = self.free.len();
        if row + 1 == self.rows && k > 0 {
            let next: usize = self.free[k - 1];
            self.rotate(next);
            handed_over = true;
            proof {
                lemma_rotation(joined, *self);
            }
        }
        let offer = RingOffer::Placed { slot, row, input, handed_over };
        assert(settles(mid, *self, g, offer, rotated));
        assert(rotated ==> rotates(start, mid));
        offer
    }

    /// Takes the slot that has waited longest for the network; `None` when none waits.
    pub fn take_ready(&mut self) -> (full: Option<RingBucket>)
        requires
            ring_wf(*old(self)),
        ensures
            ring_wf(*final(self)),
            match full {
                Some(rb) => {
                    &&& old(self).ready@.len() > 0
                    &&& rb == old(self).ready@[0]
                    &&& rb.games@.len() == old(self).rows
                    &&& rb.slot < old(self).slots
                    &&& final(self).ready@ == old(self).ready@.skip(1)
                    &&& !held(*final(self)).contains(rb.slot)
                },
                None => old(self).ready@.len() == 0 && final(self).ready@ == old(self).ready@,
            },
            final(self).active == old(self).active,
            final(self).free == old(self).free,
            same_size(*old(self), *final(self)),
    {
        let ghost before = *self;
        let full = self.ready.pop_front();
        proof {
            if full is Some {
                let rb = full->0;
                let x = held(before);
                let y = held(*self);
                let f = before.free@.len() as int;
                assert(self.ready@ =~= before.ready@.skip(1));
                assert(before.ready@.map_values(|rb: RingBucket| rb.slot).len()
                    == before.ready@.len());
                assert(self.ready@.map_values(|rb: RingBucket| rb.slot).len() == self.ready@.len());
                let from = |k: int|
                    if k < f {
                        k
                    } else {
                        k + 1
                    };
                assert forall|k: int| 0 <= k < y.len() implies #[trigger] y[k] == x[from(k)] by {
                    if f <= k < y.len() - 1 {
                        assert(self.ready@[k - f] == before.ready@[k - f + 1]);
                    }
                }
                assert(x[f] == rb.slot);
                assert forall|i: int, j: int|
                    0 <= i < y.len() && 0 <= j < y.len() && i != j implies y[i] != y[j] by {
                    assert(y[i] == x[from(i)] && y[j] == x[from(j)]);
                    assert(from(i) != from(j));
                }
                assert forall|k: int| 0 <= k < y.len() implies #[trigger] y[k] < before.slots by {
                    assert(x[from(k)] < before.slots);
                }
                if y.contains(rb.slot) {
                    let k = choose|k: int| 0 <= k < y.len() && y[k] == rb.slot;
                    assert(y[k] == x[from(k)]);
                }
                assert forall|k: int| 0 <= k < self.ready@.len() implies (
                #[trigger] self.ready@[k]).games@.len() == before.rows by {
                    assert(self.ready@[k] == before.ready@[k + 1]);
                }
            } else {
                assert(self.ready@ =~= before.ready@);
            }
        }
        full
    }

    /// Gives back a slot whose outputs have been read.
    pub fn release(&mut self, slot: usize)
        requires
            ring_wf(*old(self)),
            slot < old(self).slots,
            !held(*old(self)).contains(slot),
        ensures
            ring_wf(*final(self)),
            final(self).free@ == old(self).free@.push(slot),
            final(self).ready == old(self).ready,
            final(self).active == old(self).active,
            same_size(*old(self), *final(self)),
    {
        let ghost before = *self;
        self.free.push(slot);
        proof {
            let x = held(before);
            let y = held(*self);
            let f = before.free@.len() as int;
            let from = |k: int|
                if k < f {
                    k
                } else {
                    k - 1
                };
            assert forall|k: int| 0 <= k < y.len() && k != f implies #[trigger] y[k]
                == x[from(k)] by {}
            assert(y[f] == slot);
            assert forall|i: int, j: int| 0 <= i < y.len() && 0 <= j < y.len() && i != j implies y[i]
                != y[j] by {
                if i != f {
                    assert(y[i] == x[from(i)]);
                }
                if j != f {
                    assert(y[j] == x[from(j)]);
                }
            }
            assert forall|k: int| 0 <= k < y.len() implies #[trigger] y[k] < before.slots by {
                if k != f {
                    assert(x[from(k)] < before.slots);
                }
            }
        }
    }
}

/// A slot that is in service with the network is not filled, and filling other slots does
/// not bring it back.
pub proof fn slots_in_service_are_left_alone(
    before: RingState,
    after: RingState,
    g: Box<InFlight>,
    offer: RingOffer,
    busy: usize,
)
    requires
        ring_wf(before),
        brings(before, after, g, offer),
        !held(before).contains(busy),
    ensures
        offer matches RingOffer::Placed { slot, .. } ==> slot != busy,
        !held(after).contains(busy),
{
    let b0 = before.active.games@.len() < before.rows;
    if !b0 && before.free@.len() == 0 {
    } else {
        let mid = if b0 {
            before
        } else {
            choose|mid: RingState| #[trigger]
                rotates(before, mid) && settles(mid, after, g, offer, true)
        };
        if !b0 {
            lemma_rotation(before, mid);
        }
        assert(held(mid).to_set() == held(before).to_set());
        assert(!held(mid).contains(busy)) by {
            assert(held(mid).contains(busy) == held(mid).to_set().contains(busy));
        }
        assert(held(mid)[held(mid).len() - 1] == mid.active.slot);
        let joined = choose|joined: RingState| #[trigger]
            joins(mid, joined, g) && if joined.active.games@.len() == joined.rows
                && joined.free@.len() > 0 {
                rotates(joined, after)
            } else {
                after == joined
            };
        assert(held(joined) =~= held(mid));
        if joined.active.games@.len() == joined.rows && joined.free@.len() > 0 {
            lemma_rotation(joined, after);
            assert(held(after).contains(busy) == held(after).to_set().contains(busy));
        }
    }
}

/// A short number is the nearest one: it is off by at most half of the part that was cut, and of
/// two that are equally near it is the even one. The number is one that is not beyond infinity.
pub proof fn narrowing_rounds_to_nearest(x: Real32)
    requires
        x % 0x8000_0000 <= 0x7f80_0000,
    ensures
        -0x8000 <= narrowed(x) * 0x1_0000 - x <= 0x8000,
        x % 0x1_0000 == 0x8000 ==> narrowed(x) % 2 == 0,
{
    let high = x / 0x1_0000;
    let low = x % 0x1_0000;
    assert(x == high * 0x1_0000 + low);
    assert(high < 0xffff) by (nonlinear_arith)
        requires
            x % 0x8000_0000 <= 0x7f80_0000,
            high == x / 0x1_0000,
            x <= 0xffff_ffff,
    ;
}

/// The games of the ring in the order in which they came: those of the slots that wait, and then
/// those of the active slot.
pub open spec fn waiting(ready: Seq<RingBucket>, n: nat) -> Seq<Box<InFlight>>
    decreases n,
{
    if n == 0 {
        Seq::empty()
    } else {
        waiting(ready, (n - 1) as nat) + ready[n - 1].games@
    }
}

proof fn lemma_waiting(ready: Seq<RingBucket>, more: RingBucket, n: nat)
    requires
        n <= ready.len(),
    ensures
        waiting(ready.push(more), n) == waiting(ready, n),
    decreases n,
{
    if n > 0 {
        lemma_waiting(ready, more, (n - 1) as nat);
        assert(ready.push(more)[n - 1] == ready[n - 1]);
    }
}

proof fn lemma_rotation_keeps_games(before: RingState, after: RingState)
    requires
        rotates(before, after),
    ensures
        waiting(after.ready@, after.ready@.len()) + after.active.games@ == waiting(
            before.ready@,
            before.ready@.len(),
        ) + before.active.games@,
{
    let n = before.ready@.len();
    lemma_waiting(before.ready@, before.active, n);
    assert(after.ready@[n as int] == before.active);
    assert(waiting(after.ready@, after.ready@.len()) + after.active.games@ =~= waiting(
        before.ready@,
        n,
    ) + before.active.games@);
}

/// What bringing a game does to the ring. It is turned away only where the active slot is full
/// and no slot is free. Any other game joins the end of those that the ring holds, in the slot and
/// the row that are told, and what is to be written there is its staged position in short numbers.
/// Slots that wait keep their order.
pub proof fn games_take_the_next_row(
    before: RingState,
    after: RingState,
    g: Box<InFlight>,
    offer: RingOffer,
)
    requires
        ring_wf(before),
        brings(before, after, g, offer),
    ensures
        offer is Blocked <==> before.active.games@.len() == before.rows && before.free@.len() == 0,
        offer matches RingOffer::Blocked(back) ==> back == g && after == before,
        offer matches RingOffer::Placed { slot, row, input, handed_over } ==> {
            &&& waiting(after.ready@, after.ready@.len()) + after.active.games@ == (waiting(
                before.ready@,
                before.ready@.len(),
            ) + before.active.games@).push(g)
            &&& row == if before.active.games@.len() < before.rows {
                before.active.games@.len()
            } else {
                0
            }
            &&& slot == if before.active.games@.len() < before.rows {
                before.active.slot
            } else {
                before.free@.last()
            }
            &&& input@.len() == g.staged_enc@.len()
            &&& forall|x: int|
                0 <= x < input@.len() ==> #[trigger] input@[x] == narrowed(g.staged_enc@[x])
            &&& handed_over <==> after.ready@.len() > before.ready@.len()
            &&& before.ready@.len() <= after.ready@.len()
            &&& forall|k: int|
                0 <= k < before.ready@.len() ==> #[trigger] after.ready@[k] == before.ready@[k]
        },
{
    let b0 = before.active.games@.len() < before.rows;
    if b0 || before.free@.len() > 0 {
        let mid = if b0 {
            before
        } else {
            choose|mid: RingState| #[trigger]
                rotates(before, mid) && settles(mid, after, g, offer, true)
        };
        if !b0 {
            lemma_rotation_keeps_games(before, mid);
        }
        let joined = choose|joined: RingState| #[trigger]
            joins(mid, joined, g) && if joined.active.games@.len() == joined.rows
                && joined.free@.len() > 0 {
                rotates(joined, after)
            } else {
                after == joined
            };
        assert(waiting(joined.ready@, joined.ready@.len()) + joined.active.games@ =~= (waiting(
            mid.ready@,
            mid.ready@.len(),
        ) + mid.active.games@).push(g));
        if joined.active.games@.len() == joined.rows && joined.free@.len() > 0 {
            lemma_rotation_keeps_games(joined, after);
        }
    }
}

/// A short number at full width has its bits in front and zeros behind them; what is not a number
/// is not one at full width either.
pub proof fn widened_numbers_keep_their_bits(bits: u16)
    ensures
        bits % 0x8000 <= 0x7f80 ==> widened(bits) == bits * 0x1_0000,
        bits % 0x8000 > 0x7f80 ==> widened(bits) % 0x8000_0000 > 0x7f80_0000,
{
    if bits % 0x8000 > 0x7f80 {
        let quiet = bits | 0x40;
        assert(bits % 0x8000 > 0x7f80 ==> (bits | 0x40) % 0x8000 > 0x7f80) by (bit_vector);
        assert((quiet as int) * 0x1_0000 <= 0xffff_ffff);
        assert(widened(bits) == quiet * 0x1_0000);
    }
}

} // verus!

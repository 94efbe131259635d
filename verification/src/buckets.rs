//! Batches of positions on their way to the network: one bucket that workers fill, and
//! one full bucket that waits for the network.
//!
//! The game of a row travels with the bucket, so the answers find their way back by
//! position.

use crate::ieee::Real32;
use crate::inflight::InFlight;
use crate::tree::ENC_LEN;
use vstd::prelude::*;

verus! {

/// A batch of positions and the games they belong to.
pub struct Bucket {
    /// Encoded positions, row after row.
    pub enc: Vec<Real32>,
    /// The game of each row.
    pub games: Vec<Box<InFlight>>,
}

/// Row `r` of a batch of encoded positions.
pub open spec fn row_of(enc: Seq<Real32>, r: int) -> Seq<Real32> {
    enc.subrange(r * ENC_LEN, (r + 1) * ENC_LEN)
}

/// The bucket has a row for each game, and it is the position that the game staged.
pub open spec fn bucket_wf(b: Bucket) -> bool {
    &&& b.enc@.len() == b.games@.len() * ENC_LEN
    &&& forall|r: int|
        0 <= r < b.games@.len() ==> #[trigger] row_of(b.enc@, r) == b.games@[r].staged_enc@
}

/// Bucket `b` with one more game.
pub open spec fn with_game(b: Bucket, after: Bucket, g: Box<InFlight>) -> bool {
    &&& after.games@ == b.games@.push(g)
    &&& after.enc@ == b.enc@ + g.staged_enc@
}

impl Bucket {
    /// An empty bucket with room for `b` games.
    pub fn with_capacity(b: usize) -> (bucket: Self)
        requires
            b * ENC_LEN <= usize::MAX,
        ensures
            bucket.games@.len() == 0,
            bucket.enc@.len() == 0,
            bucket_wf(bucket),
    {
        Bucket { enc: Vec::with_capacity(b * ENC_LEN), games: Vec::with_capacity(b) }
    }

    /// Number of games.
    pub fn len(&self) -> (n: usize)
        ensures
            n == self.games@.len(),
    {
        self.games.len()
    }

    /// Appends a game with the position it staged.
    pub fn add_game(&mut self, g: Box<InFlight>)
        requires
            bucket_wf(*old(self)),
            g.staged_enc@.len() == ENC_LEN,
        ensures
            with_game(*old(self), *final(self), g),
            bucket_wf(*final(self)),
    {
        let ghost before = *self;
        self.enc.extend_from_slice(g.staged_enc.as_slice());
        assert(self.enc@ =~= before.enc@ + g.staged_enc@);
        self.games.push(g);
        proof {
            let n = before.games@.len();
            assert forall|r: int| 0 <= r < self.games@.len() implies #[trigger] row_of(self.enc@, r)
                == self.games@[r].staged_enc@ by {
                if r < n {
                    assert(row_of(before.enc@, r) == before.games@[r].staged_enc@);
                    assert(row_of(self.enc@, r) =~= row_of(before.enc@, r)) by {
                        assert((r + 1) * ENC_LEN <= n * ENC_LEN) by (nonlinear_arith)
                            requires
                                r + 1 <= n,
                        ;
                    }
                } else {
                    assert(row_of(self.enc@, r) =~= g.staged_enc@);
                }
            }
        }
    }
}

/// The two buckets.
pub struct BucketState {
    /// Workers append here.
    pub active: Bucket,
    /// A full bucket that waits for the network.
    pub ready: Option<Bucket>,
}

/// Both buckets are well-formed, the active one has at most `b` games, and the waiting one
/// exactly `b`.
pub open spec fn buckets_wf(s: BucketState, b: usize) -> bool {
    &&& bucket_wf(s.active)
    &&& s.active.games@.len() <= b
    &&& s.ready matches Some(full) ==> bucket_wf(full) && full.games@.len() == b
}

/// What became of a game that a worker brought.
pub enum Offer {
    /// It is in the active bucket.
    Taken {
        /// A full bucket started to wait for the network.
        handed_over: bool,
    },
    /// Both buckets are full; the game comes back.
    Blocked(Box<InFlight>),
}

/// What bringing a game to the buckets does. Into an active bucket with room the game
/// goes. A full active bucket moves to the waiting place when that is free, before the game
/// is appended or after it. When both are full, nothing changes.
pub open spec fn offers(
    before: BucketState,
    after: BucketState,
    g: Box<InFlight>,
    b: usize,
    offer: Offer,
) -> bool {
    if before.active.games@.len() < b {
        exists|filled: Bucket| #[trigger]
            with_game(before.active, filled, g) && if filled.games@.len() == b
                && before.ready is None {
                &&& offer == Offer::Taken { handed_over: true }
                &&& after.ready == Some(filled)
                &&& after.active.games@.len() == 0
            } else {
                &&& offer == Offer::Taken { handed_over: false }
                &&& after.ready == before.ready
                &&& after.active == filled
            }
    } else if before.ready is None {
        &&& offer == Offer::Taken { handed_over: true }
        &&& after.ready == Some(before.active)
        &&& after.active.games@ == seq![g]
        &&& after.active.enc@ == g.staged_enc@
    } else {
        offer == Offer::Blocked(g) && after == before
    }
}

impl BucketState {
    /// Two empty buckets for `b` games each.
    pub fn new(b: usize) -> (s: Self)
        requires
            b * ENC_LEN <= usize::MAX,
        ensures
            buckets_wf(s, b),
            s.active.games@.len() == 0,
            s.ready is None,
    {
        BucketState { active: Bucket::with_capacity(b), ready: None }
    }

    /// Brings a game with a staged position to the buckets.
    pub fn push_to_bucket(&mut self, g: Box<InFlight>, b: usize) -> (offer: Offer)
        requires
            0 < b,
            b * ENC_LEN <= usize::MAX,
            buckets_wf(*old(self), b),
            g.staged_enc@.len() == ENC_LEN,
        ensures
            offers(*old(self), *final(self), g, b, offer),
            buckets_wf(*final(self), b),
    {
        if self.active.len() < b {
            let ghost before = self.active;
            self.active.add_game(g);
            assert(with_game(before, self.active, g));
            if self.active.len() == b && self.ready.is_none() {
                let mut full = Bucket::with_capacity(b);
                std::mem::swap(&mut self.active, &mut full);
                self.ready = Some(full);
                return Offer::Taken { handed_over: true };
            }
            return Offer::Taken { handed_over: false };
        }
        if self.ready.is_none() {
            let mut full = Bucket::with_capacity(b);
            std::mem::swap(&mut self.active, &mut full);
            self.ready = Some(full);
            self.active.add_game(g);
            assert(self.active.games@ =~= seq![g]);
            assert(self.active.enc@ =~= g.staged_enc@);
            return Offer::Taken { handed_over: true };
        }
        Offer::Blocked(g)
    }

    /// Takes the waiting bucket for the network; `None` when none waits.
    pub fn take_ready(&mut self) -> (full: Option<Bucket>)
        ensures
            full == old(self).ready,
            final(self).ready is None,
            final(self).active == old(self).active,
    {
        self.ready.take()
    }
}

/// Games in the two buckets.
pub open spec fn staged(s: BucketState) -> Seq<Box<InFlight>> {
    match s.ready {
        Some(full) => full.games@ + s.active.games@,
        None => s.active.games@,
    }
}

/// No game is lost, doubled or overtaken on its way through the buckets: a game that is
/// taken joins the end of the staged games.
pub proof fn buckets_keep_games_in_order(
    before: BucketState,
    after: BucketState,
    g: Box<InFlight>,
    b: usize,
    offer: Offer,
)
    requires
        offers(before, after, g, b, offer),
    ensures
        offer is Taken ==> staged(after) == staged(before).push(g),
        offer is Blocked ==> staged(after) == staged(before),
{
    if before.active.games@.len() < b {
        assert(staged(after) =~= staged(before).push(g));
    } else if before.ready is None {
        assert(staged(after) =~= staged(before).push(g));
    }
}

/// Row `r` of a batch of positions starts at `r` times the length of a position.
pub proof fn positions_lie_one_after_the_other(enc: Seq<Real32>, r: int)
    requires
        0 <= r,
        (r + 1) * ENC_LEN <= enc.len(),
    ensures
        row_of(enc, r).len() == ENC_LEN,
        forall|x: int|
            0 <= x < ENC_LEN ==> #[trigger] row_of(enc, r)[x] == enc[r * ENC_LEN + x],
{
    assert((r + 1) * ENC_LEN == r * ENC_LEN + ENC_LEN) by (nonlinear_arith);
    assert(0 <= r * ENC_LEN) by (nonlinear_arith)
        requires
            0 <= r,
    ;
}

/// When a bucket is handed over and when a game is turned away. A game is turned away only where
/// the active bucket is full and another one waits. A bucket starts to wait where none does and
/// the active one is full, with the game or without it; it then has `b` games.
pub proof fn full_buckets_wait(
    before: BucketState,
    after: BucketState,
    g: Box<InFlight>,
    b: usize,
    offer: Offer,
)
    requires
        0 < b,
        buckets_wf(before, b),
        offers(before, after, g, b, offer),
    ensures
        offer is Blocked <==> before.active.games@.len() == b && before.ready is Some,
        offer matches Offer::Blocked(back) ==> back == g && after == before,
        offer matches Offer::Taken { handed_over } ==> (handed_over <==> before.ready is None
            && before.active.games@.len() + 1 >= b),
        offer == (Offer::Taken { handed_over: true }) ==> (after.ready matches Some(full)
            && full.games@.len() == b),
        offer == (Offer::Taken { handed_over: false }) ==> after.ready == before.ready
            && after.active.games@ == before.active.games@.push(g),
{
}

} // verus!

//! The games that wait for a worker. The game with the most plies goes first, so that
//! games that are nearly over drain before new ones grow.

use crate::buckets::{bucket_wf, row_of, Bucket};
use crate::ieee::{Real, Real32};
use crate::inflight::{inflight_wf, row_fits, Config, EvalResult, InFlight};
use crate::tree::POLICY_SIZE;
use std::sync::Arc;
use vstd::prelude::*;

verus! {

/// A waiting game.
pub struct Queued {
    /// Plies played.
    pub key: u64,
    /// Number of the game.
    pub seq: u64,
    pub item: Box<InFlight>,
}

/// `x` goes before `y`: it has more plies, or as many and a higher number.
pub open spec fn goes_first(x: Queued, y: Queued) -> bool {
    x.key > y.key || (x.key == y.key && x.seq > y.seq)
}

/// The later an entry stands, the earlier it goes.
pub open spec fn in_order(q: Seq<Queued>) -> bool {
    forall|i: int, j: int| 0 <= i < j < q.len() ==> !goes_first(#[trigger] q[i], #[trigger] q[j])
}

/// The waiting games; the one that goes next stands last.
pub struct Queue {
    pub entries: Vec<Queued>,
}

impl View for Queue {
    type V = Seq<Queued>;

    open spec fn view(&self) -> Seq<Queued> {
        self.entries@
    }
}

impl Queue {
    /// No game waits.
    pub fn new() -> (q: Self)
        ensures
            q@.len() == 0,
            in_order(q@),
    {
        Queue { entries: Vec::new() }
    }

    /// Lets a game wait for its turn.
    pub fn push(&mut self, entry: Queued)
        requires
            in_order(old(self)@),
        ensures
            in_order(final(self)@),
            exists|i: int|
                0 <= i <= old(self)@.len() && final(self)@ == #[trigger] old(self)@.insert(
                    i,
                    entry,
                ),
            final(self)@.to_multiset() == old(self)@.to_multiset().insert(entry),
    {
        let ghost before = self.entries@;
        let mut i: usize = self.entries.len();
        while i > 0 && (self.entries[i - 1].key > entry.key || (self.entries[i - 1].key == entry.key
            && self.entries[i - 1].seq > entry.seq))
            invariant
                0 <= i <= self.entries@.len(),
                self.entries@ == before,
                forall|k: int| i <= k < before.len() ==> goes_first(#[trigger] before[k], entry),
            decreases i,
        {
            i -= 1;
        }
        proof {
            assert forall|k: int| 0 <= k < i implies !goes_first(#[trigger] before[k], entry) by {
                if k < i - 1 {
                    assert(!goes_first(before[k], before[i - 1]));
                }
            }
        }
        self.entries.insert(i, entry);
        proof {
            let now = before.insert(i as int, entry);
            assert(self.entries@ =~= now);
            assert forall|j: int, k: int| 0 <= j < k < now.len() implies !goes_first(
                #[trigger] now[j],
                #[trigger] now[k],
            ) by {
                let oj = if j < i {
                    j
                } else {
                    j - 1
                };
                let ok = if k < i {
                    k
                } else {
                    k - 1
                };
                if j == i {
                    assert(goes_first(before[ok], entry));
                } else if k == i {
                    assert(!goes_first(before[oj], entry));
                } else {
                    assert(!goes_first(before[oj], before[ok]));
                }
            }
            broadcast use vstd::seq_lib::group_to_multiset_ensures;

            assert(now.remove(i as int) =~= before);
            assert(now.contains(entry)) by {
                assert(now[i as int] == entry);
            }
            assert(now.to_multiset() =~= before.to_multiset().insert(entry));
        }
    }

    /// Takes the game that goes next; `None` when no game waits.
    pub fn pop(&mut self) -> (next: Option<Box<InFlight>>)
        requires
            in_order(old(self)@),
        ensures
            in_order(final(self)@),
            match next {
                Some(g) => {
                    &&& old(self)@.len() > 0
                    &&& final(self)@ == old(self)@.drop_last()
                    &&& g == old(self)@.last().item
                },
                None => old(self)@.len() == 0 && final(self)@ == old(self)@,
            },
    {
        let ghost before = self.entries@;
        match self.entries.pop() {
            Some(q) => {
                proof {
                    assert(self.entries@ =~= before.drop_last());
                    assert forall|j: int, k: int| 0 <= j < k < before.len() - 1 implies !goes_first(
                        #[trigger] self.entries@[j],
                        #[trigger] self.entries@[k],
                    ) by {
                        assert(!goes_first(before[j], before[k]));
                    }
                }
                Some(q.item)
            },
            None => None,
        }
    }
}

/// The game that is taken from the queue has at least as many plies as every game that
/// stays, and of those with as many none has a higher number.
pub proof fn most_plies_go_first(q: Seq<Queued>, k: int)
    requires
        in_order(q),
        0 <= k < q.len() - 1,
    ensures
        q.last().key >= q[k].key,
        q.last().key == q[k].key ==> q.last().seq >= q[k].seq,
{
    assert(!goes_first(q[k], q[q.len() - 1]));
}

/// Another handle on the same shared value: what `std::sync::Arc::clone` returns points
/// to the value that its argument points to.
#[verifier::external_body]
fn share<T>(value: &Arc<T>) -> (other: Arc<T>)
    ensures
        other == *value,
{
    Arc::clone(value)
}

/// A game to which its evaluation, row `r` of a batch, has been attached.
pub open spec fn answered(g: InFlight, logits: Arc<Vec<Real32>>, r: usize, value: Real) -> InFlight {
    InFlight { pending: Some(EvalResult { logits, row: r, value }), ..g }
}

/// The queue entry of the game in row `r` of an evaluated batch.
pub open spec fn entry_of(
    games: Seq<Box<InFlight>>,
    logits: Arc<Vec<Real32>>,
    values: Seq<Real>,
    r: int,
) -> Queued {
    Queued {
        key: games[r].game.history@.len() as u64,
        seq: games[r].id,
        item: Box::new(answered(*games[r], logits, r as usize, values[r])),
    }
}

/// The queue entries of an evaluated batch, row by row.
pub open spec fn entries_of(
    games: Seq<Box<InFlight>>,
    logits: Arc<Vec<Real32>>,
    values: Seq<Real>,
) -> Seq<Queued> {
    Seq::new(games.len(), |r: int| entry_of(games, logits, values, r))
}

/// Every game that comes back from an evaluation is well-formed and can go on, when the
/// batch has a row for each game.
pub proof fn answered_games_may_run(
    g: InFlight,
    logits: Arc<Vec<Real32>>,
    r: usize,
    value: Real,
    config: Config,
)
    requires
        inflight_wf(g, config),
        g.leaf_ctx is Some,
        (r + 1) * POLICY_SIZE <= logits@.len(),
    ensures
        inflight_wf(answered(g, logits, r, value), config),
        crate::inflight::may_run(answered(g, logits, r, value)),
{
    assert(row_fits(EvalResult { logits, row: r, value }));
    assert(answered(g, logits, r, value).game == g.game);
}

/// A game gets the answer to its own position: the row that it is given is the row of the
/// batch that holds what it staged.
pub proof fn answers_reach_their_games(
    bucket: Bucket,
    logits: Arc<Vec<Real32>>,
    values: Seq<Real>,
    r: int,
)
    requires
        bucket_wf(bucket),
        0 <= r < bucket.games@.len() <= usize::MAX,
    ensures
        entries_of(bucket.games@, logits, values)[r].seq == bucket.games@[r].id,
        ({
            let g = entries_of(bucket.games@, logits, values)[r].item;
            &&& g.id == bucket.games@[r].id
            &&& g.pending matches Some(res) && res.row == r && res.value == values[r]
            &&& row_of(bucket.enc@, g.pending->0.row as int) == g.staged_enc@
        }),
{
}

/// Attaches to each game of an evaluated batch its row of the policies and its value, and
/// lets it wait for a worker. Row `r` belongs to the `r`-th game.
pub fn requeue_scattered(
    queue: &mut Queue,
    logits: Arc<Vec<Real32>>,
    values: &Vec<Real>,
    games: Vec<Box<InFlight>>,
)
    requires
        in_order(old(queue)@),
        values@.len() >= games@.len(),
    ensures
        in_order(final(queue)@),
        final(queue)@.to_multiset() == old(queue)@.to_multiset().add(
            entries_of(games@, logits, values@).to_multiset(),
        ),
{
    let ghost all = entries_of(games@, logits, values@);
    let ghost before = queue@.to_multiset();
    let mut rest = games;
    let mut r: usize = 0;
    assert(all.take(0) =~= Seq::<Queued>::empty());
    proof {
        broadcast use vstd::seq_lib::group_to_multiset_ensures;

        assert(all.take(0).to_multiset().len() == 0);
        assert(before =~= before.add(all.take(0).to_multiset()));
    }
    assert(rest@ =~= games@.skip(0));
    while rest.len() > 0
        invariant
            in_order(queue@),
            0 <= r <= games@.len(),
            rest@ == games@.skip(r as int),
            values@.len() >= games@.len(),
            all == entries_of(games@, logits, values@),
            queue@.to_multiset() == before.add(all.take(r as int).to_multiset()),
        decreases rest@.len(),
    {
        let mut g = rest.remove(0);
        assert(*g == *games@[r as int]);
        g.pending = Some(EvalResult { logits: share(&logits), row: r, value: values[r] });
        let key: u64 = g.game.history.len() as u64;
        let seq: u64 = g.id;
        let entry = Queued { key, seq, item: g };
        assert(entry == all[r as int]);
        queue.push(entry);
        proof {
            assert(all.take(r + 1) =~= all.take(r as int).push(all[r as int]));
            vstd::seq_lib::to_multiset_build(all.take(r as int), all[r as int]);
            assert(queue@.to_multiset() =~= before.add(all.take(r + 1).to_multiset()));
        }
        assert(rest@ =~= games@.skip(r + 1));
        assert(values@.len() == values.len());
        r += 1;
    }
    assert(all.take(r as int) =~= all);
}

/// A game that comes back from an evaluation waits by the number of its moves on record, and as
/// itself: nothing about it changes but that it has its row of the answer.
pub proof fn answered_games_wait_by_their_plies(
    games: Seq<Box<InFlight>>,
    logits: Arc<Vec<Real32>>,
    values: Seq<Real>,
    r: int,
)
    requires
        0 <= r < games.len() <= usize::MAX,
        games[r].game.history@.len() <= u64::MAX,
    ensures
        entries_of(games, logits, values).len() == games.len(),
        ({
            let entry = entries_of(games, logits, values)[r];
            &&& entry.key == games[r].game.history@.len()
            &&& entry.seq == games[r].id
            &&& entry.item.id == games[r].id
            &&& entry.item.game == games[r].game
            &&& entry.item.phase == games[r].phase
            &&& entry.item.leaf_ctx == games[r].leaf_ctx
            &&& entry.item.pending matches Some(res) && res.logits == logits && res.row == r
                && res.value == values[r]
        }),
{
}

} // verus!

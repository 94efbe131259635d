//! The consumer: it puts the positions of many workers together into one batch, and sends
//! each worker its rows of the answer.

use crate::batch::policy_row;
use crate::buckets::row_of;
use crate::game::{row_wf, rows_wf, Row};
use crate::ieee::{Real, Real32, ZERO, ZERO32};
use crate::shards::FinishedGame;
use crate::tree::{ENC_LEN, POLICY_SIZE};
use vstd::prelude::*;

verus! {

/// Positions that a worker wants evaluated.
pub struct EvalRequest {
    /// Who asks.
    pub worker: usize,
    /// Encoded positions, row after row.
    pub rows: Vec<Real32>,
    pub n_rows: usize,
}

/// The answer to a request.
pub struct EvalResponse {
    /// Who asked.
    pub worker: usize,
    /// Policies, row after row.
    pub logits: Vec<Real32>,
    pub values: Vec<Real>,
}

/// What a worker tells the consumer.
pub enum ToConsumer {
    Eval(EvalRequest),
    Finished(Vec<FinishedGame>),
    WorkerDone,
}

/// The request has as many rows as it says.
pub open spec fn request_wf(r: EvalRequest) -> bool {
    r.rows@.len() == r.n_rows * ENC_LEN
}

/// What the consumer has taken in since its last batch.
pub struct Intake {
    pub requests: Vec<EvalRequest>,
    pub finished_rows: Vec<Row>,
    pub n_finished: usize,
    pub total_rows: usize,
    /// Workers that have ended, since the beginning.
    pub workers_done: usize,
}

/// Rows of the first `n` requests together: where the rows of the next one begin.
pub open spec fn offset(requests: Seq<EvalRequest>, n: nat) -> nat
    decreases n,
{
    if n == 0 {
        0
    } else {
        offset(requests, (n - 1) as nat) + requests[n - 1].n_rows as nat
    }
}

/// The rows of the first `n` requests, one request after the other.
pub open spec fn gathered_rows(requests: Seq<EvalRequest>, n: nat) -> Seq<Real32>
    decreases n,
{
    if n == 0 {
        Seq::empty()
    } else {
        gathered_rows(requests, (n - 1) as nat) + requests[n - 1].rows@
    }
}

/// The rows of the first `n` games, one game after the other.
pub open spec fn finished_rows_of(games: Seq<FinishedGame>, n: nat) -> Seq<Row>
    decreases n,
{
    if n == 0 {
        Seq::empty()
    } else {
        finished_rows_of(games, (n - 1) as nat) + games[n - 1].rows@
    }
}

/// The requests are in order, and the number of rows is theirs.
pub open spec fn intake_wf(t: Intake) -> bool {
    &&& forall|k: int| 0 <= k < t.requests@.len() ==> request_wf(#[trigger] t.requests@[k])
    &&& t.total_rows == offset(t.requests@, t.requests@.len())
}

proof fn lemma_rows_wf(games: Seq<FinishedGame>, n: nat)
    requires
        n <= games.len(),
        forall|k: int| 0 <= k < games.len() ==> rows_wf((#[trigger] games[k]).rows@),
    ensures
        rows_wf(finished_rows_of(games, n)),
    decreases n,
{
    if n > 0 {
        lemma_rows_wf(games, (n - 1) as nat);
        let front = finished_rows_of(games, (n - 1) as nat);
        let all = finished_rows_of(games, n);
        assert forall|j: int| 0 <= j < all.len() implies row_wf(#[trigger] all[j]) by {
            if j < front.len() {
                assert(all[j] == front[j]);
            } else {
                assert(rows_wf(games[n - 1].rows@));
                assert(all[j] == games[n - 1].rows@[j - front.len()]);
            }
        }
    }
}

proof fn lemma_offset(requests: Seq<EvalRequest>, more: EvalRequest, n: nat)
    requires
        n <= requests.len(),
    ensures
        offset(requests.push(more), n) == offset(requests, n),
        gathered_rows(requests.push(more), n) == gathered_rows(requests, n),
    decreases n,
{
    if n > 0 {
        lemma_offset(requests, more, (n - 1) as nat);
        assert(requests.push(more)[n - 1] == requests[n - 1]);
    }
}

proof fn lemma_offset_monotone(requests: Seq<EvalRequest>, k: nat, n: nat)
    requires
        k <= n,
    ensures
        offset(requests, k) <= offset(requests, n),
    decreases n,
{
    if k < n {
        lemma_offset_monotone(requests, k, (n - 1) as nat);
    }
}

impl Intake {
    /// Nothing taken in; `workers_done` workers have ended before.
    pub fn new(workers_done: usize) -> (t: Self)
        ensures
            intake_wf(t),
            t.requests@.len() == 0,
            t.finished_rows@.len() == 0,
            t.n_finished == 0,
            t.workers_done == workers_done,
    {
        Intake {
            requests: Vec::new(),
            finished_rows: Vec::new(),
            n_finished: 0,
            total_rows: 0,
            workers_done,
        }
    }

    /// Takes in what a worker tells.
    pub fn absorb(&mut self, msg: ToConsumer)
        requires
            intake_wf(*old(self)),
            match msg {
                ToConsumer::Eval(r) => request_wf(r) && old(self).total_rows + r.n_rows
                    <= usize::MAX,
                ToConsumer::Finished(games) => old(self).n_finished + games@.len() <= usize::MAX,
                ToConsumer::WorkerDone => old(self).workers_done < usize::MAX,
            },
        ensures
            intake_wf(*final(self)),
            match msg {
                ToConsumer::Eval(r) => {
                    &&& final(self).requests@ == old(self).requests@.push(r)
                    &&& final(self).total_rows == old(self).total_rows + r.n_rows
                    &&& final(self).finished_rows == old(self).finished_rows
                    &&& final(self).n_finished == old(self).n_finished
                    &&& final(self).workers_done == old(self).workers_done
                },
                ToConsumer::Finished(games) => {
                    &&& final(self).finished_rows@ == old(self).finished_rows@ + finished_rows_of(
                        games@,
                        games@.len(),
                    )
                    &&& final(self).n_finished == old(self).n_finished + games@.len()
                    &&& rows_wf(old(self).finished_rows@) && (forall|k: int|
                        0 <= k < games@.len() ==> rows_wf((#[trigger] games@[k]).rows@))
                        ==> rows_wf(final(self).finished_rows@)
                    &&& final(self).requests == old(self).requests
                    &&& final(self).total_rows == old(self).total_rows
                    &&& final(self).workers_done == old(self).workers_done
                },
                ToConsumer::WorkerDone => {
                    &&& final(self).workers_done == old(self).workers_done + 1
                    &&& final(self).requests == old(self).requests
                    &&& final(self).total_rows == old(self).total_rows
                    &&& final(self).finished_rows == old(self).finished_rows
                    &&& final(self).n_finished == old(self).n_finished
                },
            },
    {
        match msg {
            ToConsumer::Eval(r) => {
                let ghost before = self.requests@;
                proof {
                    lemma_offset(before, r, before.len());
                }
                self.total_rows = self.total_rows + r.n_rows;
                self.requests.push(r);
            },
            ToConsumer::Finished(games) => {
                let ghost start = *self;
                let ghost all = games@;
                let mut rest = games;
                assert(self.finished_rows@ =~= start.finished_rows@ + finished_rows_of(all, 0));
                let ghost mut k: nat = 0;
                assert(rest@ =~= all.skip(0));
                while rest.len() > 0
                    invariant
                        k + rest@.len() == all.len(),
                        rest@ == all.skip(k as int),
                        start.n_finished + all.len() <= usize::MAX,
                        self.n_finished == start.n_finished + k,
                        self.finished_rows@ == start.finished_rows@ + finished_rows_of(all, k),
                        self.requests == start.requests,
                        self.total_rows == start.total_rows,
                        self.workers_done == start.workers_done,
                    decreases rest@.len(),
                {
                    let FinishedGame { game_uid: _, rows } = rest.remove(0);
                    let mut rows = rows;
                    let ghost so_far = self.finished_rows@;
                    let ghost more = rows@;
                    assert(more == all[k as int].rows@);
                    self.n_finished += 1;
                    self.finished_rows.append(&mut rows);
                    proof {
                        k = k + 1;
                        assert(self.finished_rows@ =~= so_far + more);
                        assert(self.finished_rows@ =~= start.finished_rows@ + finished_rows_of(
                            all,
                            k,
                        ));
                        assert(rest@ =~= all.skip(k as int));
                    }
                }
                proof {
                    if rows_wf(start.finished_rows@) && (forall|j: int|
                        0 <= j < all.len() ==> rows_wf((#[trigger] all[j]).rows@)) {
                        lemma_rows_wf(all, all.len());
                        let more = finished_rows_of(all, all.len());
                        let before = start.finished_rows@;
                        assert forall|j: int| 0 <= j < self.finished_rows@.len() implies row_wf(
                            #[trigger] self.finished_rows@[j],
                        ) by {
                            if j < before.len() {
                                assert(self.finished_rows@[j] == before[j]);
                            } else {
                                assert(self.finished_rows@[j] == more[j - before.len()]);
                            }
                        }
                    }
                }
            },
            ToConsumer::WorkerDone => {
                self.workers_done += 1;
            },
        }
    }

    /// Tells whether the batch has room for more.
    pub fn wants_more(&self, max_batch: usize) -> (more: bool)
        ensures
            more == (self.total_rows < max_batch),
    {
        self.total_rows < max_batch
    }

    /// Tells whether all workers have ended, so that nothing more is to come.
    pub fn is_over(&self, n_workers: usize) -> (over: bool)
        ensures
            over == (self.workers_done >= n_workers),
    {
        self.workers_done >= n_workers
    }

    /// What is to be handed on: the rows of the games that ended, with their number, if any did.
    pub fn delivery(self) -> (out: Option<(Vec<Row>, usize)>)
        ensures
            out == if self.n_finished > 0 {
                Some((self.finished_rows, self.n_finished))
            } else {
                None
            },
    {
        if self.n_finished > 0 {
            Some((self.finished_rows, self.n_finished))
        } else {
            None
        }
    }

    /// Puts the positions of all requests together into one batch.
    pub fn batch(&self) -> (enc: Vec<Real32>)
        requires
            intake_wf(*self),
        ensures
            enc@ == gathered_rows(self.requests@, self.requests@.len()),
            enc@.len() == self.total_rows * ENC_LEN,
    {
        let mut enc: Vec<Real32> = Vec::new();
        let mut k: usize = 0;
        while k < self.requests.len()
            invariant
                0 <= k <= self.requests@.len(),
                intake_wf(*self),
                enc@ == gathered_rows(self.requests@, k as nat),
                enc@.len() == offset(self.requests@, k as nat) * ENC_LEN,
            decreases self.requests@.len() - k,
        {
            let r = &self.requests[k];
            assert(request_wf(self.requests@[k as int]));
            enc.extend_from_slice(r.rows.as_slice());
            assert(enc@ =~= gathered_rows(self.requests@, (k + 1) as nat));
            k += 1;
        }
        enc
    }
}

/// The answer to the `k`-th request: its rows of the answer for the batch.
pub open spec fn is_response(
    requests: Seq<EvalRequest>,
    k: int,
    logits: Seq<Real32>,
    values: Seq<Real>,
    resp: EvalResponse,
) -> bool {
    let from = offset(requests, k as nat);
    let to = offset(requests, (k + 1) as nat);
    &&& resp.worker == requests[k].worker
    &&& resp.logits@ == logits.subrange(from * POLICY_SIZE, to * POLICY_SIZE)
    &&& resp.values@ == values.subrange(from as int, to as int)
}

/// Sends each worker its rows of the answer for the batch.
pub fn route(requests: &Vec<EvalRequest>, logits: &Vec<Real32>, values: &Vec<Real>) -> (out: Vec<
    EvalResponse,
>)
    requires
        offset(requests@, requests@.len()) * POLICY_SIZE <= logits@.len(),
        offset(requests@, requests@.len()) <= values@.len(),
    ensures
        out@.len() == requests@.len(),
        forall|k: int|
            0 <= k < out@.len() ==> is_response(
                requests@,
                k,
                logits@,
                values@,
                #[trigger] out@[k],
            ),
{
    assert(logits@.len() == logits.len());
    assert(values@.len() == values.len());
    let mut out: Vec<EvalResponse> = Vec::new();
    let mut off: usize = 0;
    let mut k: usize = 0;
    while k < requests.len()
        invariant
            0 <= k <= requests@.len(),
            off == offset(requests@, k as nat),
            offset(requests@, requests@.len()) * POLICY_SIZE <= logits@.len() <= usize::MAX,
            offset(requests@, requests@.len()) <= values@.len() <= usize::MAX,
            out@.len() == k,
            forall|j: int|
                0 <= j < k ==> is_response(requests@, j, logits@, values@, #[trigger] out@[j]),
        decreases requests@.len() - k,
    {
        let r = &requests[k];
        let n: usize = r.n_rows;
        proof {
            lemma_offset_monotone(requests@, (k + 1) as nat, requests@.len());
            assert(offset(requests@, (k + 1) as nat) == off + n);
        }
        let part = vstd::slice::slice_subrange(
            logits.as_slice(),
            off * POLICY_SIZE,
            (off + n) * POLICY_SIZE,
        );
        let mut mine: Vec<Real32> = Vec::new();
        mine.extend_from_slice(part);
        let vals = vstd::slice::slice_subrange(values.as_slice(), off, off + n);
        let mut my_values: Vec<Real> = Vec::new();
        my_values.extend_from_slice(vals);
        let resp = EvalResponse { worker: r.worker, logits: mine, values: my_values };
        proof {
            assert(resp.logits@ =~= logits@.subrange(off * POLICY_SIZE, (off + n) * POLICY_SIZE));
            assert(resp.values@ =~= values@.subrange(off as int, off + n));
        }
        off += n;
        out.push(resp);
        k += 1;
    }
    out
}

/// An answer for a worker that lost its consumer: nothing but zeros.
pub fn blank_answer(n: usize) -> (out: (Vec<Real32>, Vec<Real>))
    requires
        n * POLICY_SIZE <= usize::MAX,
    ensures
        out.0@ == Seq::new((n * POLICY_SIZE) as nat, |i: int| ZERO32),
        out.1@ == Seq::new(n as nat, |i: int| ZERO),
{
    let m: usize = n * POLICY_SIZE;
    let mut logits: Vec<Real32> = Vec::new();
    while logits.len() < m
        invariant
            logits@.len() <= m,
            forall|i: int| 0 <= i < logits@.len() ==> #[trigger] logits@[i] == ZERO32,
        decreases m - logits@.len(),
    {
        logits.push(ZERO32);
    }
    let mut values: Vec<Real> = Vec::new();
    while values.len() < n
        invariant
            values@.len() <= n,
            forall|i: int| 0 <= i < values@.len() ==> #[trigger] values@[i] == ZERO,
        decreases n - values@.len(),
    {
        values.push(ZERO);
    }
    assert(logits@ =~= Seq::new(m as nat, |i: int| ZERO32));
    assert(values@ =~= Seq::new(n as nat, |i: int| ZERO));
    (logits, values)
}

proof fn lemma_row_in_batch(requests: Seq<EvalRequest>, n: nat, k: int, j: int)
    requires
        n <= requests.len(),
        0 <= k < n,
        forall|i: int| 0 <= i < requests.len() ==> request_wf(#[trigger] requests[i]),
        0 <= j < requests[k].n_rows,
    ensures
        gathered_rows(requests, n).len() == offset(requests, n) * ENC_LEN,
        offset(requests, k as nat) + j < offset(requests, n),
        row_of(gathered_rows(requests, n), offset(requests, k as nat) + j) == row_of(
            requests[k].rows@,
            j,
        ),
    decreases n,
{
    let last = requests[n - 1];
    let front = gathered_rows(requests, (n - 1) as nat);
    assert(request_wf(last));
    lemma_gathered_len(requests, (n - 1) as nat);
    let at = offset(requests, k as nat) + j;
    if k < n - 1 {
        lemma_row_in_batch(requests, (n - 1) as nat, k, j);
        assert((at + 1) * ENC_LEN <= offset(requests, (n - 1) as nat) * ENC_LEN)
            by (nonlinear_arith)
            requires
                at + 1 <= offset(requests, (n - 1) as nat),
        ;
        assert(row_of(gathered_rows(requests, n), at) =~= row_of(front, at));
    } else {
        assert((j + 1) * ENC_LEN <= last.n_rows * ENC_LEN) by (nonlinear_arith)
            requires
                j + 1 <= last.n_rows,
        ;
        assert(row_of(gathered_rows(requests, n), at) =~= row_of(last.rows@, j));
    }
}

proof fn lemma_gathered_len(requests: Seq<EvalRequest>, n: nat)
    requires
        n <= requests.len(),
        forall|i: int| 0 <= i < requests.len() ==> request_wf(#[trigger] requests[i]),
    ensures
        gathered_rows(requests, n).len() == offset(requests, n) * ENC_LEN,
    decreases n,
{
    if n > 0 {
        lemma_gathered_len(requests, (n - 1) as nat);
        assert(request_wf(requests[n - 1]));
    }
}

/// A worker gets the answers for its own positions: row `j` of its request is some row of the
/// batch, and row `j` of its answer is that row of the answer for the batch.
pub proof fn answers_find_their_positions(
    requests: Seq<EvalRequest>,
    k: int,
    j: int,
    logits: Seq<Real32>,
    values: Seq<Real>,
    resp: EvalResponse,
) -> (r: int)
    requires
        0 <= k < requests.len(),
        forall|i: int| 0 <= i < requests.len() ==> request_wf(#[trigger] requests[i]),
        0 <= j < requests[k].n_rows,
        offset(requests, requests.len()) * POLICY_SIZE <= logits.len(),
        offset(requests, requests.len()) <= values.len(),
        is_response(requests, k, logits, values, resp),
    ensures
        0 <= r < offset(requests, requests.len()),
        row_of(gathered_rows(requests, requests.len()), r) == row_of(requests[k].rows@, j),
        policy_row(resp.logits@, j) == policy_row(logits, r),
        resp.values@[j] == values[r],
{
    let r = offset(requests, k as nat) + j;
    lemma_row_in_batch(requests, requests.len(), k, j);
    lemma_offset_monotone(requests, (k + 1) as nat, requests.len());
    let from = offset(requests, k as nat);
    let to = offset(requests, (k + 1) as nat);
    assert((j + 1) * POLICY_SIZE <= (to - from) * POLICY_SIZE) by (nonlinear_arith)
        requires
            j + 1 <= to - from,
    ;
    assert(policy_row(resp.logits@, j) =~= policy_row(logits, r));
    r
}

/// The rows of games that ended are handed on game by game, in order.
pub proof fn finished_rows_join_in_order(games: Seq<FinishedGame>, n: nat)
    requires
        n < games.len(),
    ensures
        finished_rows_of(games, 0).len() == 0,
        finished_rows_of(games, n + 1) == finished_rows_of(games, n) + games[n as int].rows@,
{
    assert(games[(n + 1) - 1] == games[n as int]);
}

/// When the consumer stops collecting: a batch has room exactly while it has fewer rows than
/// asked for.
pub proof fn batches_stop_when_full(t: Intake, max_batch: usize, more: bool)
    requires
        call_ensures(Intake::wants_more, (&t, max_batch), more),
    ensures
        more <==> t.total_rows < max_batch,
{
}

/// The consumer is through exactly when every worker has ended, and what it hands on are the rows
/// that came in, with the number of games, unless no game ended.
pub proof fn consumers_wait_for_every_worker(
    t: Intake,
    n_workers: usize,
    over: bool,
    out: Option<(Vec<Row>, usize)>,
)
    requires
        call_ensures(Intake::is_over, (&t, n_workers), over),
        call_ensures(Intake::delivery, (t,), out),
    ensures
        over <==> t.workers_done >= n_workers,
        out is None <==> t.n_finished == 0,
        out matches Some((rows, n)) ==> rows == t.finished_rows && n == t.n_finished,
{
}

} // verus!

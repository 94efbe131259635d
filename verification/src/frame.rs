//! Training rows as bytes.

use crate::cohort::{cohort_wf, Cohort, ROW_FLOATS};
use crate::game::{row_wf, rows_wf, Row};
use crate::ieee::Real32;
use crate::tree::{ENC_LEN, POLICY_SIZE};
use vstd::prelude::*;

verus! {

/// Bytes per training row of a frame.
pub const ROW_BYTES: usize = 4 * (ENC_LEN + POLICY_SIZE + 1);

/// The bytes of a word, the lowest first.
pub open spec fn le_bytes(x: u32) -> Seq<u8> {
    seq![
        (x % 0x100) as u8,
        (x / 0x100 % 0x100) as u8,
        (x / 0x1_0000 % 0x100) as u8,
        (x / 0x100_0000) as u8,
    ]
}

/// The bytes of the first `n` words, one after the other.
pub open spec fn words(xs: Seq<u32>, n: nat) -> Seq<u8>
    decreases n,
{
    if n == 0 {
        Seq::empty()
    } else {
        words(xs, (n - 1) as nat) + le_bytes(xs[n - 1])
    }
}

/// Appends a word, the lowest byte first.
fn push_word(out: &mut Vec<u8>, x: u32)
    ensures
        final(out)@ == old(out)@ + le_bytes(x),
{
    let ghost before = out@;
    out.push((x % 0x100) as u8);
    out.push((x / 0x100 % 0x100) as u8);
    out.push((x / 0x1_0000 % 0x100) as u8);
    out.push((x / 0x100_0000) as u8);
    assert(out@ =~= before + le_bytes(x));
}

/// Appends words, the lowest byte of each first.
pub fn push_words(out: &mut Vec<u8>, xs: &Vec<u32>)
    ensures
        final(out)@ == old(out)@ + words(xs@, xs@.len()),
{
    let ghost start = out@;
    let mut i: usize = 0;
    assert(out@ =~= start + words(xs@, 0));
    while i < xs.len()
        invariant
            0 <= i <= xs@.len(),
            out@ == start + words(xs@, i as nat),
        decreases xs@.len() - i,
    {
        push_word(out, xs[i]);
        assert(out@ =~= start + words(xs@, (i + 1) as nat));
        i += 1;
    }
}

/// The bytes of a training row: the encoded position, the policy, and the result.
pub open spec fn row_bytes(row: Row) -> Seq<u8> {
    words(row.state@, row.state@.len()) + words(row.pi@, row.pi@.len()) + le_bytes(row.z)
}

/// The bytes of the first `n` rows, one after the other.
pub open spec fn rows_bytes(rows: Seq<Row>, n: nat) -> Seq<u8>
    decreases n,
{
    if n == 0 {
        Seq::empty()
    } else {
        rows_bytes(rows, (n - 1) as nat) + row_bytes(rows[n - 1])
    }
}

/// The frame of a finished game: the number of its rows, and the rows.
pub open spec fn frame_of(rows: Seq<Row>) -> Seq<u8> {
    le_bytes(rows.len() as u32) + rows_bytes(rows, rows.len())
}

/// Writes the frame of a finished game.
pub fn write_frame(rows: &Vec<Row>) -> (out: Vec<u8>)
    requires
        rows@.len() <= u32::MAX,
    ensures
        out@ == frame_of(rows@),
{
    let mut out: Vec<u8> = Vec::new();
    push_word(&mut out, rows.len() as u32);
    let ghost head = out@;
    assert(head =~= le_bytes(rows@.len() as u32));
    let mut i: usize = 0;
    assert(out@ =~= head + rows_bytes(rows@, 0));
    while i < rows.len()
        invariant
            0 <= i <= rows@.len(),
            out@ == head + rows_bytes(rows@, i as nat),
        decreases rows@.len() - i,
    {
        let row = &rows[i];
        let ghost before = out@;
        push_words(&mut out, &row.state);
        push_words(&mut out, &row.pi);
        push_word(&mut out, row.z);
        proof {
            assert(out@ =~= before + row_bytes(rows@[i as int]));
            assert(out@ =~= head + rows_bytes(rows@, (i + 1) as nat));
        }
        i += 1;
    }
    out
}

/// The numbers of the first `n` buffers, one buffer after the other.
pub open spec fn flat(buffers: Seq<Vec<Real32>>, n: nat) -> Seq<Real32>
    decreases n,
{
    if n == 0 {
        Seq::empty()
    } else {
        flat(buffers, (n - 1) as nat) + buffers[n - 1]@
    }
}

pub proof fn lemma_flat_push(buffers: Seq<Vec<Real32>>, more: Vec<Real32>, n: nat)
    requires
        n <= buffers.len(),
    ensures
        flat(buffers.push(more), n) == flat(buffers, n),
        flat(buffers.push(more), buffers.len() + 1) == flat(buffers.push(more), buffers.len())
            + more@,
    decreases n,
{
    if n > 0 {
        lemma_flat_push(buffers, more, (n - 1) as nat);
    }
}

/// The bytes of a cohort: the number of rows, the numbers per row, and the rows.
pub open spec fn cohort_of(buffers: Seq<Vec<Real32>>, n_rows: int) -> Seq<u8> {
    let numbers = flat(buffers, buffers.len());
    le_bytes(n_rows as u32) + le_bytes(ROW_FLOATS as u32) + words(numbers, numbers.len())
}

/// Writes the bytes of a cohort that was collected in the given buffers.
pub fn write_cohort(buffers: &Vec<Vec<Real32>>, n_rows: usize) -> (out: Vec<u8>)
    requires
        n_rows <= u32::MAX,
    ensures
        out@ == cohort_of(buffers@, n_rows as int),
        out@.len() == 8 + 4 * flat(buffers@, buffers@.len()).len(),
        flat(buffers@, buffers@.len()).len() == n_rows * ROW_FLOATS ==> out@.len() == 8 + 4 * (
        n_rows * ROW_FLOATS),
{
    let mut out: Vec<u8> = Vec::new();
    push_word(&mut out, n_rows as u32);
    push_word(&mut out, ROW_FLOATS as u32);
    let ghost head = out@;
    assert(head =~= le_bytes(n_rows as u32) + le_bytes(ROW_FLOATS as u32));
    let mut i: usize = 0;
    assert(out@ =~= head + words(flat(buffers@, 0), 0));
    while i < buffers.len()
        invariant
            0 <= i <= buffers@.len(),
            out@ == head + words(flat(buffers@, i as nat), flat(buffers@, i as nat).len()),
        decreases buffers@.len() - i,
    {
        let ghost before = out@;
        let ghost some = flat(buffers@, i as nat);
        push_words(&mut out, &buffers[i]);
        proof {
            let more = buffers@[i as int]@;
            lemma_words_join(some, more, more.len());
            assert(flat(buffers@, (i + 1) as nat) == some + more);
            assert(out@ =~= head + words(some + more, some.len() + more.len()));
        }
        i += 1;
    }
    proof {
        lemma_words_len(flat(buffers@, buffers@.len()), flat(buffers@, buffers@.len()).len());
    }
    out
}

proof fn lemma_words_prefix(xs: Seq<u32>, ys: Seq<u32>, n: nat)
    requires
        n <= xs.len(),
    ensures
        words(xs + ys, n) == words(xs, n),
    decreases n,
{
    if n > 0 {
        lemma_words_prefix(xs, ys, (n - 1) as nat);
        assert((xs + ys)[n - 1] == xs[n - 1]);
    }
}

/// Words that are joined have the bytes of the ones and then of the others.
proof fn lemma_words_join(xs: Seq<u32>, ys: Seq<u32>, n: nat)
    requires
        n <= ys.len(),
    ensures
        words(xs + ys, xs.len() + n) == words(xs, xs.len()) + words(ys, n),
    decreases n,
{
    if n == 0 {
        lemma_words_prefix(xs, ys, xs.len());
        assert(words(xs, xs.len()) + words(ys, 0) =~= words(xs, xs.len()));
    } else {
        let m = (n - 1) as nat;
        lemma_words_join(xs, ys, m);
        assert((xs + ys)[(xs.len() + m) as int] == ys[m as int]);
        assert(words(xs, xs.len()) + words(ys, n) =~= words(xs, xs.len()) + words(ys, m)
            + le_bytes(ys[m as int]));
    }
}

/// The bytes of a cohort have the length that its head tells: as many rows as were counted, each
/// of so many numbers.
pub proof fn cohorts_have_the_length_they_tell(c: Cohort)
    requires
        cohort_wf(c),
    ensures
        cohort_of(c.buffers@, c.n_rows as int).len() == 8 + 4 * (c.n_rows * ROW_FLOATS),
{
    let numbers = flat(c.buffers@, c.buffers@.len());
    lemma_words_len(numbers, numbers.len());
}

/// The bytes of a cohort tell the number of rows and all numbers: whoever reads them gets them
/// back.
pub proof fn cohorts_tell_their_rows(c: Cohort, d: Cohort)
    requires
        cohort_wf(c),
        cohort_wf(d),
        c.n_rows <= u32::MAX,
        d.n_rows <= u32::MAX,
        cohort_of(c.buffers@, c.n_rows as int) == cohort_of(d.buffers@, d.n_rows as int),
    ensures
        c.n_rows == d.n_rows,
        flat(c.buffers@, c.buffers@.len()) == flat(d.buffers@, d.buffers@.len()),
{
    let a = cohort_of(c.buffers@, c.n_rows as int);
    let b = cohort_of(d.buffers@, d.n_rows as int);
    let xs = flat(c.buffers@, c.buffers@.len());
    let ys = flat(d.buffers@, d.buffers@.len());
    assert(a.take(4) =~= le_bytes(c.n_rows as u32));
    assert(b.take(4) =~= le_bytes(d.n_rows as u32));
    bytes_tell_the_word(c.n_rows as u32, d.n_rows as u32);
    assert(a.skip(8) =~= words(xs, xs.len()));
    assert(b.skip(8) =~= words(ys, ys.len()));
    lemma_words_injective(xs, ys, xs.len());
    assert(xs =~= ys);
}

/// Words can be read back from their bytes.
pub proof fn bytes_tell_the_word(x: u32, y: u32)
    requires
        le_bytes(x) == le_bytes(y),
    ensures
        x == y,
{
    let a = le_bytes(x);
    let b = le_bytes(y);
    assert(a[0] == b[0] && a[1] == b[1] && a[2] == b[2] && a[3] == b[3]);
    assert(x == (x % 0x100) + 0x100 * (x / 0x100 % 0x100) + 0x1_0000 * (x / 0x1_0000 % 0x100)
        + 0x100_0000 * (x / 0x100_0000)) by (bit_vector);
    assert(y == (y % 0x100) + 0x100 * (y / 0x100 % 0x100) + 0x1_0000 * (y / 0x1_0000 % 0x100)
        + 0x100_0000 * (y / 0x100_0000)) by (bit_vector);
}

proof fn lemma_words_len(xs: Seq<u32>, n: nat)
    ensures
        words(xs, n).len() == 4 * n,
    decreases n,
{
    if n > 0 {
        lemma_words_len(xs, (n - 1) as nat);
    }
}

proof fn lemma_words_injective(xs: Seq<u32>, ys: Seq<u32>, n: nat)
    requires
        words(xs, n) == words(ys, n),
        n <= xs.len(),
        n <= ys.len(),
    ensures
        forall|i: int| 0 <= i < n ==> #[trigger] xs[i] == ys[i],
    decreases n,
{
    if n > 0 {
        let m = (n - 1) as nat;
        lemma_words_len(xs, m);
        lemma_words_len(ys, m);
        let a = words(xs, n);
        let b = words(ys, n);
        assert(a.take(4 * m as int) =~= words(xs, m));
        assert(b.take(4 * m as int) =~= words(ys, m));
        assert(a.skip(4 * m as int) =~= le_bytes(xs[n - 1]));
        assert(b.skip(4 * m as int) =~= le_bytes(ys[n - 1]));
        bytes_tell_the_word(xs[n - 1], ys[n - 1]);
        lemma_words_injective(xs, ys, m);
    }
}

/// Two rows hold the same numbers.
pub open spec fn same_row(x: Row, y: Row) -> bool {
    x.state@ == y.state@ && x.pi@ == y.pi@ && x.z == y.z
}

proof fn lemma_row_len(row: Row)
    requires
        row_wf(row),
    ensures
        row_bytes(row).len() == ROW_BYTES,
{
    lemma_words_len(row.state@, row.state@.len());
    lemma_words_len(row.pi@, row.pi@.len());
}

proof fn lemma_row_injective(x: Row, y: Row)
    requires
        row_wf(x),
        row_wf(y),
        row_bytes(x) == row_bytes(y),
    ensures
        same_row(x, y),
{
    lemma_words_len(x.state@, x.state@.len());
    lemma_words_len(x.pi@, x.pi@.len());
    lemma_words_len(y.state@, y.state@.len());
    lemma_words_len(y.pi@, y.pi@.len());
    let a = row_bytes(x);
    let b = row_bytes(y);
    let s = 4 * ENC_LEN as int;
    let t = 4 * (ENC_LEN + POLICY_SIZE) as int;
    assert(a.subrange(0, s) =~= words(x.state@, x.state@.len()));
    assert(b.subrange(0, s) =~= words(y.state@, y.state@.len()));
    assert(a.subrange(s, t) =~= words(x.pi@, x.pi@.len()));
    assert(b.subrange(s, t) =~= words(y.pi@, y.pi@.len()));
    assert(a.skip(t) =~= le_bytes(x.z));
    assert(b.skip(t) =~= le_bytes(y.z));
    lemma_words_injective(x.state@, y.state@, ENC_LEN as nat);
    lemma_words_injective(x.pi@, y.pi@, POLICY_SIZE as nat);
    bytes_tell_the_word(x.z, y.z);
    assert(x.state@ =~= y.state@);
    assert(x.pi@ =~= y.pi@);
}

proof fn lemma_rows_injective(xs: Seq<Row>, ys: Seq<Row>, n: nat)
    requires
        n <= xs.len(),
        n <= ys.len(),
        rows_wf(xs),
        rows_wf(ys),
        rows_bytes(xs, n) == rows_bytes(ys, n),
    ensures
        forall|i: int| 0 <= i < n ==> same_row(#[trigger] xs[i], ys[i]),
    decreases n,
{
    if n > 0 {
        let m = (n - 1) as nat;
        lemma_rows_len(xs, m);
        lemma_rows_len(ys, m);
        lemma_row_len(xs[n - 1]);
        lemma_row_len(ys[n - 1]);
        let a = rows_bytes(xs, n);
        let b = rows_bytes(ys, n);
        let cut = rows_bytes(xs, m).len() as int;
        assert(a.take(cut) =~= rows_bytes(xs, m));
        assert(b.take(cut) =~= rows_bytes(ys, m));
        assert(a.skip(cut) =~= row_bytes(xs[n - 1]));
        assert(b.skip(cut) =~= row_bytes(ys[n - 1]));
        lemma_row_injective(xs[n - 1], ys[n - 1]);
        lemma_rows_injective(xs, ys, m);
    }
}

proof fn lemma_rows_len(rows: Seq<Row>, n: nat)
    requires
        n <= rows.len(),
        rows_wf(rows),
    ensures
        rows_bytes(rows, n).len() == n * ROW_BYTES,
    decreases n,
{
    if n > 0 {
        lemma_rows_len(rows, (n - 1) as nat);
        lemma_row_len(rows[n - 1]);
        assert(n * ROW_BYTES == (n - 1) * ROW_BYTES + ROW_BYTES) by (nonlinear_arith);
    } else {
        assert(n * ROW_BYTES == 0) by (nonlinear_arith)
            requires
                n == 0,
        ;
    }
}

/// A frame has a fixed length for each number of rows.
pub proof fn frames_have_a_known_length(rows: Seq<Row>)
    requires
        rows_wf(rows),
    ensures
        frame_of(rows).len() == 4 + rows.len() * ROW_BYTES,
{
    lemma_rows_len(rows, rows.len());
}

/// A frame tells the rows that it was written from: whoever reads it gets them back.
pub proof fn frames_tell_the_rows(xs: Seq<Row>, ys: Seq<Row>)
    requires
        xs.len() <= u32::MAX,
        ys.len() <= u32::MAX,
        rows_wf(xs),
        rows_wf(ys),
        frame_of(xs) == frame_of(ys),
    ensures
        xs.len() == ys.len(),
        forall|i: int| 0 <= i < xs.len() ==> same_row(#[trigger] xs[i], ys[i]),
{
    let a = frame_of(xs);
    let b = frame_of(ys);
    assert(a.take(4) =~= le_bytes(xs.len() as u32));
    assert(b.take(4) =~= le_bytes(ys.len() as u32));
    bytes_tell_the_word(xs.len() as u32, ys.len() as u32);
    assert(a.skip(4) =~= rows_bytes(xs, xs.len()));
    assert(b.skip(4) =~= rows_bytes(ys, ys.len()));
    lemma_rows_injective(xs, ys, xs.len());
}

/// A word is its bytes by powers of 256, the first byte for the lowest.
pub proof fn bytes_ascend(x: u32)
    ensures
        le_bytes(x).len() == 4,
        le_bytes(x)[0] + 0x100 * le_bytes(x)[1] + 0x1_0000 * le_bytes(x)[2] + 0x100_0000 * le_bytes(
            x,
        )[3] == x,
{
    assert(x == x % 0x100 + 0x100 * (x / 0x100 % 0x100) + 0x1_0000 * (x / 0x1_0000 % 0x100)
        + 0x100_0000 * (x / 0x100_0000)) by (bit_vector);
    assert(x / 0x100_0000 < 0x100) by (bit_vector);
}

/// Words lie one after the other, four bytes each.
pub proof fn words_lie_one_after_the_other(xs: Seq<u32>, n: nat, i: int)
    requires
        0 <= i < n <= xs.len(),
    ensures
        words(xs, n).len() == 4 * n,
        words(xs, n).subrange(4 * i, 4 * i + 4) == le_bytes(xs[i]),
    decreases n,
{
    lemma_words_len(xs, n);
    lemma_words_len(xs, (n - 1) as nat);
    let front = words(xs, (n - 1) as nat);
    if i < n - 1 {
        words_lie_one_after_the_other(xs, (n - 1) as nat, i);
        assert(words(xs, n).subrange(4 * i, 4 * i + 4) =~= front.subrange(4 * i, 4 * i + 4));
    } else {
        assert(words(xs, n).subrange(4 * i, 4 * i + 4) =~= le_bytes(xs[i]));
    }
}

/// A row of a frame holds the position first, then the policy, and last what the game was worth.
pub proof fn rows_hold_position_policy_result(row: Row, x: int, y: int)
    requires
        row_wf(row),
        0 <= x < ENC_LEN,
        0 <= y < POLICY_SIZE,
    ensures
        row_bytes(row).len() == 4 * (ENC_LEN + POLICY_SIZE + 1),
        row_bytes(row).subrange(4 * x, 4 * x + 4) == le_bytes(row.state@[x]),
        row_bytes(row).subrange(4 * (ENC_LEN + y), 4 * (ENC_LEN + y) + 4) == le_bytes(row.pi@[y]),
        row_bytes(row).subrange(
            4 * (ENC_LEN + POLICY_SIZE),
            4 * (ENC_LEN + POLICY_SIZE) + 4,
        ) == le_bytes(row.z),
{
    lemma_row_len(row);
    words_lie_one_after_the_other(row.state@, ENC_LEN as nat, x);
    words_lie_one_after_the_other(row.pi@, POLICY_SIZE as nat, y);
    let a = row_bytes(row);
    let s = words(row.state@, row.state@.len());
    let p = words(row.pi@, row.pi@.len());
    assert(a.subrange(4 * x, 4 * x + 4) =~= s.subrange(4 * x, 4 * x + 4));
    assert(a.subrange(4 * (ENC_LEN + y), 4 * (ENC_LEN + y) + 4) =~= p.subrange(4 * y, 4 * y + 4));
    assert(a.subrange(4 * (ENC_LEN + POLICY_SIZE), 4 * (ENC_LEN + POLICY_SIZE) + 4) =~= le_bytes(
        row.z,
    ));
}

proof fn lemma_rows_in_order(rows: Seq<Row>, n: nat, k: int)
    requires
        rows_wf(rows),
        0 <= k < n <= rows.len(),
    ensures
        rows_bytes(rows, n).len() == n * ROW_BYTES,
        rows_bytes(rows, n).subrange(k * ROW_BYTES, (k + 1) * ROW_BYTES) == row_bytes(rows[k]),
    decreases n,
{
    let front = rows_bytes(rows, (n - 1) as nat);
    lemma_row_len(rows[n - 1]);
    assert(n * ROW_BYTES == (n - 1) * ROW_BYTES + ROW_BYTES) by (nonlinear_arith);
    assert((k + 1) * ROW_BYTES == k * ROW_BYTES + ROW_BYTES) by (nonlinear_arith);
    assert(0 <= k * ROW_BYTES) by (nonlinear_arith)
        requires
            0 <= k,
    ;
    if n > 1 {
        lemma_rows_in_order(
            rows,
            (n - 1) as nat,
            if k < n - 1 {
                k
            } else {
                0
            },
        );
    }
    let all = rows_bytes(rows, n);
    if k < n - 1 {
        assert((k + 1) * ROW_BYTES <= (n - 1) * ROW_BYTES) by (nonlinear_arith)
            requires
                k + 1 <= n - 1,
        ;
        assert(all.subrange(k * ROW_BYTES, (k + 1) * ROW_BYTES) =~= front.subrange(
            k * ROW_BYTES,
            (k + 1) * ROW_BYTES,
        ));
    } else {
        assert(all.subrange(k * ROW_BYTES, (k + 1) * ROW_BYTES) =~= row_bytes(rows[k]));
    }
}

/// A frame begins with the number of its rows, and holds them in order behind it.
pub proof fn frames_hold_their_rows_in_order(rows: Seq<Row>, k: int)
    requires
        rows_wf(rows),
        rows.len() <= u32::MAX,
        0 <= k < rows.len(),
    ensures
        frame_of(rows).subrange(0, 4) == le_bytes(rows.len() as u32),
        frame_of(rows).subrange(4 + k * ROW_BYTES, 4 + (k + 1) * ROW_BYTES) == row_bytes(rows[k]),
{
    lemma_rows_in_order(rows, rows.len(), k);
    let body = rows_bytes(rows, rows.len());
    assert((k + 1) * ROW_BYTES <= rows.len() * ROW_BYTES) by (nonlinear_arith)
        requires
            k + 1 <= rows.len(),
    ;
    assert(0 <= k * ROW_BYTES <= (k + 1) * ROW_BYTES) by (nonlinear_arith)
        requires
            0 <= k,
    ;
    assert(frame_of(rows).subrange(0, 4) =~= le_bytes(rows.len() as u32));
    assert(frame_of(rows).subrange(4 + k * ROW_BYTES, 4 + (k + 1) * ROW_BYTES) =~= body.subrange(
        k * ROW_BYTES,
        (k + 1) * ROW_BYTES,
    ));
}

/// A cohort begins with the number of its rows and the numbers per row, and holds its numbers in
/// order behind them.
pub proof fn cohorts_hold_their_numbers_in_order(
    buffers: Seq<Vec<Real32>>,
    n_rows: int,
    i: int,
)
    requires
        0 <= i < flat(buffers, buffers.len()).len(),
    ensures
        cohort_of(buffers, n_rows).subrange(0, 4) == le_bytes(n_rows as u32),
        cohort_of(buffers, n_rows).subrange(4, 8) == le_bytes(
            (ENC_LEN + POLICY_SIZE + 2) as u32,
        ),
        cohort_of(buffers, n_rows).subrange(8 + 4 * i, 8 + 4 * i + 4) == le_bytes(
            flat(buffers, buffers.len())[i],
        ),
{
    let numbers = flat(buffers, buffers.len());
    words_lie_one_after_the_other(numbers, numbers.len(), i);
    let a = cohort_of(buffers, n_rows);
    assert(a.subrange(0, 4) =~= le_bytes(n_rows as u32));
    assert(a.subrange(4, 8) =~= le_bytes(ROW_FLOATS as u32));
    assert(a.subrange(8 + 4 * i, 8 + 4 * i + 4) =~= words(numbers, numbers.len()).subrange(
        4 * i,
        4 * i + 4,
    ));
}

} // verus!

//! The two walks of a trial over the table.
//!
//! A trial is a string of `k` free bytes. It is written into row
//! `rows = 16 - k`, at the start of the second block and again at the start
//! of the third. The forward walk runs the rounds down to row 17 and reads
//! the fingerprint from the carry column. The backward walk undoes the rounds
//! in the second block up to row 0, where the message stands.

use vstd::prelude::*;
use crate::rounds::{carry, carry_byte, lemma_mix_len, mixed, next_row, row_at, BLOCK_LEN, ROW_LEN};
use crate::sbox::{sbox, SBOX};
use crate::table::{
    fixed_cell, is_fixed, t1, tri, TTable, COLS, MAX_FREE, MIN_FREE, ROWS, T1_END, T2_END,
};

verus! {

/// The cell of the second block at row `r <= 16 - k` and column `c`, for the
/// trial `b` of `k` free bytes: the triangle, the free bytes in row
/// `16 - k`, and above them what the round undone gives. At `c = 16` it is
/// the end of the first block.
pub open spec fn t2(k: int, b: Seq<u8>, r: int, c: int) -> u8
    decreases 16 - k - r,
{
    if c <= T1_END {
        t1(r, T1_END as int)
    } else if c + r > T2_END {
        tri(r, T2_END - c)
    } else if r >= 16 - k {
        b[c - T1_END - 1]
    } else {
        t2(k, b, r + 1, c) ^ sbox(t2(k, b, r + 1, c - 1))
    }
}

/// Row `r <= 16 - k` of the table that the trial `b` stands for, without its
/// carry byte: the fixed first block, the second block, and the second block
/// once more.
pub open spec fn upper_row(k: int, b: Seq<u8>, r: int) -> Seq<u8> {
    Seq::new(
        ROW_LEN as nat,
        |i: int|
            if i < T1_END {
                t1(r, i + 1)
            } else if i < T2_END {
                t2(k, b, r, i + 1)
            } else {
                t2(k, b, r, i + 1 - BLOCK_LEN)
            },
    )
}

/// Row `r` of the table that the trial `b` stands for, without its carry
/// byte: below row `16 - k` the rounds run on from that row.
pub open spec fn trace_row(k: int, b: Seq<u8>, r: int) -> Seq<u8> {
    if r <= 16 - k {
        upper_row(k, b, r)
    } else {
        row_at(upper_row(k, b, 16 - k), 16 - k, r)
    }
}

/// The carry byte of row `r >= 2` of that table.
pub open spec fn trace_carry(k: int, b: Seq<u8>, r: int) -> u8 {
    carry(trace_row(k, b, r - 1)[ROW_LEN as int - 1], r - 1)
}

/// The fingerprint of the trial `b`: the carry bytes of the rows `18 - k`
/// to 18, `k + 1` bytes.
pub open spec fn fingerprint_of(k: int, b: Seq<u8>) -> Seq<u8> {
    Seq::new((k + 1) as nat, |i: int| trace_carry(k, b, 18 - k + i))
}

/// The message of the trial `b`: the second block of row 0.
pub open spec fn message_of(k: int, b: Seq<u8>) -> Seq<u8> {
    Seq::new(BLOCK_LEN as nat, |i: int| t2(k, b, 0, T1_END + 1 + i))
}

/// Below row `16 - k` each row is the round of the row above it.
pub proof fn lemma_trace_row_unfold(k: int, b: Seq<u8>, r: int)
    requires
        r > 16 - k,
    ensures
        trace_row(k, b, r) == next_row(trace_row(k, b, r - 1), r - 1),
{
    let base = upper_row(k, b, 16 - k);
    assert(row_at(base, 16 - k, 16 - k) == base);
    assert(row_at(base, 16 - k, r) == next_row(row_at(base, 16 - k, r - 1), r - 1));
}

/// Every row of the table of a trial has 48 bytes.
pub proof fn lemma_trace_row_len(k: int, b: Seq<u8>, r: int)
    ensures
        trace_row(k, b, r).len() == ROW_LEN,
    decreases r - (16 - k),
{
    if r > 16 - k {
        lemma_trace_row_len(k, b, r - 1);
        lemma_mix_len(
            carry(trace_row(k, b, r - 1)[ROW_LEN as int - 1], r - 1),
            trace_row(k, b, r - 1),
        );
        lemma_trace_row_unfold(k, b, r);
    }
}

/// Below row `16 - k` each byte of a row is the byte above it, xored with
/// the substitution of the byte to its left (of the carry, for the first).
pub proof fn lemma_trace_step(k: int, b: Seq<u8>, r: int, c: int)
    requires
        r > 16 - k,
        0 <= c < ROW_LEN,
    ensures
        trace_row(k, b, r)[c] == trace_row(k, b, r - 1)[c] ^ sbox(
            if c == 0 {
                trace_carry(k, b, r)
            } else {
                trace_row(k, b, r)[c - 1]
            },
        ),
{
    let above = trace_row(k, b, r - 1);
    let t = trace_carry(k, b, r);
    lemma_trace_row_len(k, b, r - 1);
    lemma_trace_row_unfold(k, b, r);
    assert(trace_row(k, b, r)[c] == mixed(t, above, c));
    assert(mixed(t, above, -1) == t);
    if c > 0 {
        assert(trace_row(k, b, r)[c - 1] == mixed(t, above, c - 1));
    }
}

impl TTable {
    /// Row `16 - k` holds the trial `b` in its free cells.
    pub open spec fn holds_trial(&self, k: int, b: Seq<u8>) -> bool {
        forall|j: int|
            0 <= j < k ==> #[trigger] self.cell(16 - k, T1_END + 1 + j) == b[j] && self.cell(
                16 - k,
                T2_END + 1 + j,
            ) == b[j]
    }

    /// Writes the trial into the free cells of row `16 - k`: at the start of
    /// the second block and at the start of the third.
    pub fn place_trial(&mut self, k: usize, trial: &[u8])
        requires
            MIN_FREE <= k <= MAX_FREE,
            trial@.len() == k,
            old(self).is_prefilled(k as int),
        ensures
            final(self).is_prefilled(k as int),
            final(self).holds_trial(k as int, trial@),
            forall|r: int, c: int|
                0 <= r < ROWS && 0 <= c < COLS && !(r == 16 - k && (T1_END < c <= T1_END + k
                    || T2_END < c <= T2_END + k)) ==> #[trigger] final(self).cell(r, c) == old(
                    self,
                ).cell(r, c),
    {
        let rows: usize = 16 - k;
        let mut j: usize = 0;
        while j < k
            invariant
                MIN_FREE <= k <= MAX_FREE,
                rows == 16 - k,
                j <= k,
                trial@.len() == k,
                forall|i: int|
                    0 <= i < j ==> #[trigger] self.cell(rows as int, T1_END + 1 + i) == trial@[i]
                        && self.cell(rows as int, T2_END + 1 + i) == trial@[i],
                forall|r: int, c: int|
                    0 <= r < ROWS && 0 <= c < COLS && !(r == rows && (T1_END < c <= T1_END + j
                        || T2_END < c <= T2_END + j)) ==> #[trigger] self.cell(r, c) == old(
                        self,
                    ).cell(r, c),
            decreases k - j,
        {
            let ghost before = *self;
            self.cells[rows][T1_END + 1 + j] = trial[j];
            self.cells[rows][T2_END + 1 + j] = trial[j];
            assert forall|r: int, c: int|
                0 <= r < ROWS && 0 <= c < COLS && !(r == rows && (T1_END < c <= T1_END + j + 1
                    || T2_END < c <= T2_END + j + 1)) implies #[trigger] self.cell(r, c) == old(
                self,
            ).cell(r, c) by {
                assert(self.cell(r, c) == before.cell(r, c));
            }
            assert forall|i: int| 0 <= i < j + 1 implies #[trigger] self.cell(
                rows as int,
                T1_END + 1 + i,
            ) == trial@[i] && self.cell(rows as int, T2_END + 1 + i) == trial@[i] by {
                if i < j {
                    assert(before.cell(rows as int, T1_END + 1 + i) == trial@[i]);
                    assert(self.cell(rows as int, T1_END + 1 + i) == before.cell(
                        rows as int,
                        T1_END + 1 + i,
                    ));
                    assert(self.cell(rows as int, T2_END + 1 + i) == before.cell(
                        rows as int,
                        T2_END + 1 + i,
                    ));
                }
            }
            j += 1;
        }
        assert forall|r: int, c: int|
            0 <= r < ROWS && 0 <= c < COLS && is_fixed(16 - k, r, c) implies #[trigger] self.cell(
            r,
            c,
        ) == fixed_cell(r, c) by {
            assert(self.cell(r, c) == old(self).cell(r, c));
        }
    }

    /// With the trial in place, row `16 - k` is the row that the trial
    /// stands for.
    pub proof fn lemma_search_row(&self, k: int, b: Seq<u8>)
        requires
            MIN_FREE <= k <= MAX_FREE,
            b.len() == k,
            self.is_prefilled(k),
            self.holds_trial(k, b),
        ensures
            self.row(16 - k) == upper_row(k, b, 16 - k),
    {
        let rows = 16 - k;
        assert forall|i: int| 0 <= i < ROW_LEN implies self.row(rows)[i] == upper_row(k, b, rows)[i] by {
            let c = i + 1;
            if c <= T1_END {
                assert(is_fixed(rows, rows, c));
                assert(self.cell(rows, c) == fixed_cell(rows, c));
            } else if c <= T2_END {
                if c + rows > T2_END {
                    assert(is_fixed(rows, rows, c));
                    assert(self.cell(rows, c) == fixed_cell(rows, c));
                } else {
                    let j = c - T1_END - 1;
                    assert(self.cell(rows, T1_END + 1 + j) == b[j]);
                }
            } else {
                if c - BLOCK_LEN + rows > T2_END {
                    assert(is_fixed(rows, rows, c));
                    assert(self.cell(rows, c) == fixed_cell(rows, c));
                } else {
                    let j = c - T2_END - 1;
                    assert(self.cell(rows, T1_END + 1 + j) == b[j]);
                    assert(self.cell(rows, T2_END + 1 + j) == b[j]);
                }
            }
        }
        assert(self.row(rows) =~= upper_row(k, b, rows));
    }

    /// The forward walk: writes the trial into row `16 - k`, runs the rounds
    /// from there down to row 17, and returns the fingerprint, the carry
    /// bytes of the rows `18 - k` to 18. What it returns depends on `k` and
    /// the trial alone, whatever earlier walks left in the table.
    pub fn fingerprint(&mut self, k: usize, trial: &[u8]) -> (key: Vec<u8>)
        requires
            MIN_FREE <= k <= MAX_FREE,
            trial@.len() == k,
            old(self).is_prefilled(k as int),
        ensures
            final(self).is_prefilled(k as int),
            final(self).holds_trial(k as int, trial@),
            key@ == fingerprint_of(k as int, trial@),
            forall|r: int|
                16 - k <= r < ROWS - 1 ==> #[trigger] final(self).row(r) == trace_row(
                    k as int,
                    trial@,
                    r,
                ),
            forall|r: int|
                16 - k < r <= ROWS - 1 ==> #[trigger] final(self).cell(r, 0) == trace_carry(
                    k as int,
                    trial@,
                    r,
                ),
            forall|r: int, c: int|
                0 <= r < ROWS && 0 <= c < COLS && (r < 16 - k || (r == ROWS - 1 && c >= 1))
                    ==> #[trigger] final(self).cell(r, c) == old(self).cell(r, c),
    {
        let rows: usize = 16 - k;
        self.place_trial(k, trial);
        let ghost placed = *self;
        proof {
            self.lemma_search_row(k as int, trial@);
            assert(is_fixed(rows as int, rows + 1, 0));
            assert(self.cell(rows + 1, 0) == fixed_cell(rows + 1, 0));
            assert(upper_row(k as int, trial@, rows as int)[ROW_LEN as int - 1] == t1(
                rows as int,
                T1_END as int,
            ));
        }
        let mut row: usize = rows + 1;
        while row < ROWS - 1
            invariant
                MIN_FREE <= k <= MAX_FREE,
                rows == 16 - k,
                trial@.len() == k,
                rows + 1 <= row <= ROWS - 1,
                self.is_prefilled(k as int),
                self.holds_trial(k as int, trial@),
                forall|r: int|
                    rows <= r < row ==> #[trigger] self.row(r) == trace_row(k as int, trial@, r),
                forall|r: int|
                    rows < r <= row ==> #[trigger] self.cell(r, 0) == trace_carry(
                        k as int,
                        trial@,
                        r,
                    ),
                forall|r: int, c: int|
                    0 <= r < ROWS && 0 <= c < COLS && (r < rows || (r == ROWS - 1 && c >= 1))
                        ==> #[trigger] self.cell(r, c) == placed.cell(r, c),
            decreases ROWS - row,
        {
            let ghost entry = *self;
            let mut left: u8 = self.cells[row][0];
            let mut col: usize = 1;
            while col < COLS
                invariant
                    MIN_FREE <= k <= MAX_FREE,
                    rows == 16 - k,
                    rows + 1 <= row < ROWS - 1,
                    1 <= col <= COLS,
                    left == self.cell(row as int, col - 1),
                    entry.row(row - 1) == trace_row(k as int, trial@, row - 1),
                    entry.cell(row as int, 0) == trace_carry(k as int, trial@, row as int),
                    forall|c: int|
                        1 <= c < col ==> #[trigger] self.cell(row as int, c) == trace_row(
                            k as int,
                            trial@,
                            row as int,
                        )[c - 1],
                    forall|r: int, c: int|
                        0 <= r < ROWS && 0 <= c < COLS && !(r == row && 1 <= c < col)
                            ==> #[trigger] self.cell(r, c) == entry.cell(r, c),
                decreases COLS - col,
            {
                let ghost before = *self;
                proof {
                    lemma_trace_step(k as int, trial@, row as int, col - 1);
                    assert(before.cell(row - 1, col as int) == entry.row(row - 1)[col - 1]);
                    if col == 1 {
                        assert(before.cell(row as int, 0) == entry.cell(row as int, 0));
                    } else {
                        assert(before.cell(row as int, col - 1) == trace_row(
                            k as int,
                            trial@,
                            row as int,
                        )[col - 2]);
                    }
                }
                let byte: u8 = self.cells[row - 1][col] ^ SBOX[left as usize];
                self.cells[row][col] = byte;
                left = byte;
                assert forall|r: int, c: int|
                    0 <= r < ROWS && 0 <= c < COLS && !(r == row && 1 <= c < col + 1)
                        implies #[trigger] self.cell(r, c) == entry.cell(r, c) by {
                    assert(self.cell(r, c) == before.cell(r, c));
                }
                assert forall|c: int| 1 <= c < col + 1 implies #[trigger] self.cell(row as int, c)
                    == trace_row(k as int, trial@, row as int)[c - 1] by {
                    if c < col {
                        assert(self.cell(row as int, c) == before.cell(row as int, c));
                    }
                }
                col += 1;
            }
            let ghost filled = *self;
            let t: u8 = carry_byte(left, row);
            self.cells[row + 1][0] = t;
            proof {
                lemma_trace_row_len(k as int, trial@, row as int);
                assert(filled.row(row as int) =~= trace_row(k as int, trial@, row as int));
                assert forall|r: int, c: int|
                    0 <= r < ROWS && 0 <= c < COLS && !(r == row + 1 && c == 0)
                        implies #[trigger] self.cell(r, c) == filled.cell(r, c) by {}
                assert forall|r: int| rows <= r < row + 1 implies #[trigger] self.row(r)
                    == trace_row(k as int, trial@, r) by {
                    if r < row {
                        assert(entry.row(r) == trace_row(k as int, trial@, r));
                        assert(self.row(r) =~= entry.row(r));
                    } else {
                        assert(self.row(r) =~= filled.row(r));
                    }
                }
                assert forall|r: int| rows < r <= row + 1 implies #[trigger] self.cell(r, 0)
                    == trace_carry(k as int, trial@, r) by {
                    if r <= row {
                        assert(self.cell(r, 0) == entry.cell(r, 0));
                    }
                }
                assert forall|r: int, c: int|
                    0 <= r < ROWS && 0 <= c < COLS && (r < rows || (r == ROWS - 1 && c >= 1))
                        implies #[trigger] self.cell(r, c) == placed.cell(r, c) by {
                    assert(self.cell(r, c) == entry.cell(r, c));
                }
                assert forall|r: int, c: int|
                    0 <= r < ROWS && 0 <= c < COLS && is_fixed(16 - k, r, c)
                        implies #[trigger] self.cell(r, c) == fixed_cell(r, c) by {
                    assert(self.cell(r, c) == entry.cell(r, c));
                }
                assert forall|j: int| 0 <= j < k implies #[trigger] self.cell(
                    16 - k,
                    T1_END + 1 + j,
                ) == trial@[j] && self.cell(16 - k, T2_END + 1 + j) == trial@[j] by {
                    assert(entry.cell(16 - k, T1_END + 1 + j) == trial@[j]);
                    assert(self.cell(16 - k, T1_END + 1 + j) == entry.cell(16 - k, T1_END + 1 + j));
                    assert(self.cell(16 - k, T2_END + 1 + j) == entry.cell(16 - k, T2_END + 1 + j));
                }
            }
            row += 1;
        }
        let mut key: Vec<u8> = Vec::new();
        let mut i: usize = 0;
        while i <= k
            invariant
                MIN_FREE <= k <= MAX_FREE,
                rows == 16 - k,
                i <= k + 1,
                key@.len() == i,
                forall|r: int|
                    rows < r <= ROWS - 1 ==> #[trigger] self.cell(r, 0) == trace_carry(
                        k as int,
                        trial@,
                        r,
                    ),
                forall|j: int| 0 <= j < i ==> key@[j] == trace_carry(k as int, trial@, 18 - k + j),
            decreases k + 1 - i,
        {
            assert(self.cell(rows + 2 + i, 0) == trace_carry(k as int, trial@, rows + 2 + i));
            key.push(self.cells[rows + 2 + i][0]);
            i += 1;
        }
        assert(key@ =~= fingerprint_of(k as int, trial@));
        key
    }

    /// The backward walk: writes the trial into row `16 - k`, undoes the
    /// rounds in the second block from there up to row 0, and returns the
    /// 16 bytes of the message that stand there. What it returns depends on
    /// `k` and the trial alone, whatever earlier walks left in the table.
    pub fn recover_message(&mut self, k: usize, trial: &[u8]) -> (message: Vec<u8>)
        requires
            MIN_FREE <= k <= MAX_FREE,
            trial@.len() == k,
            old(self).is_prefilled(k as int),
        ensures
            final(self).is_prefilled(k as int),
            final(self).holds_trial(k as int, trial@),
            message@ == message_of(k as int, trial@),
            forall|r: int, c: int|
                0 <= r <= 16 - k && T1_END < c <= T2_END ==> #[trigger] final(self).cell(r, c)
                    == t2(k as int, trial@, r, c),
            forall|r: int, c: int|
                0 <= r < ROWS && 0 <= c < COLS && !(r <= 16 - k && T1_END < c && c + r <= T2_END)
                    && !(r == 16 - k && T2_END < c <= T2_END + k) ==> #[trigger] final(self).cell(
                    r,
                    c,
                ) == old(self).cell(r, c),
    {
        let rows: usize = 16 - k;
        self.place_trial(k, trial);
        let ghost placed = *self;
        proof {
            self.lemma_search_row(k as int, trial@);
            assert forall|r: int, c: int|
                rows <= r <= rows && T1_END < c <= T2_END implies #[trigger] self.cell(r, c) == t2(
                k as int,
                trial@,
                r,
                c,
            ) by {
                assert(self.cell(rows as int, c) == self.row(rows as int)[c - 1]);
            }
        }
        let mut row: usize = rows;
        while row >= 1
            invariant
                MIN_FREE <= k <= MAX_FREE,
                rows == 16 - k,
                trial@.len() == k,
                row <= rows,
                self.is_prefilled(k as int),
                self.holds_trial(k as int, trial@),
                forall|r: int, c: int|
                    row <= r <= rows && T1_END < c <= T2_END ==> #[trigger] self.cell(r, c) == t2(
                        k as int,
                        trial@,
                        r,
                        c,
                    ),
                forall|r: int, c: int|
                    0 <= r < ROWS && 0 <= c < COLS && !(row <= r < rows && T1_END < c && c + r
                        <= T2_END) ==> #[trigger] self.cell(r, c) == placed.cell(r, c),
            decreases row,
        {
            let ghost entry = *self;
            proof {
                assert(is_fixed(16 - k, row as int, T1_END as int));
                assert(self.cell(row as int, T1_END as int) == fixed_cell(row as int, T1_END as int));
            }
            let mut col: usize = T1_END + 1;
            while col <= T2_END - row + 1
                invariant
                    MIN_FREE <= k <= MAX_FREE,
                    rows == 16 - k,
                    1 <= row <= rows,
                    T1_END + 1 <= col <= T2_END - row + 2,
                    entry.cell(row as int, T1_END as int) == t1(row as int, T1_END as int),
                    forall|r: int, c: int|
                        row <= r <= rows && T1_END < c <= T2_END ==> #[trigger] entry.cell(r, c)
                            == t2(k as int, trial@, r, c),
                    forall|c: int|
                        T1_END < c < col ==> #[trigger] self.cell(row - 1, c) == t2(
                            k as int,
                            trial@,
                            row - 1,
                            c,
                        ),
                    forall|r: int, c: int|
                        0 <= r < ROWS && 0 <= c < COLS && !(r == row - 1 && T1_END < c < col)
                            ==> #[trigger] self.cell(r, c) == entry.cell(r, c),
                decreases T2_END + 2 - row - col,
            {
                let ghost before = *self;
                proof {
                    let above = t2(k as int, trial@, row as int, col as int);
                    let left = t2(k as int, trial@, row as int, col - 1);
                    assert(before.cell(row as int, col as int) == entry.cell(row as int, col as int));
                    assert(before.cell(row as int, col - 1) == entry.cell(row as int, col - 1));
                    assert(entry.cell(row as int, col as int) == above);
                    assert(entry.cell(row as int, col - 1) == left);
                    assert(t2(k as int, trial@, row - 1, col as int) == above ^ sbox(left));
                }
                let byte: u8 = self.cells[row][col] ^ SBOX[self.cells[row][col - 1] as usize];
                self.cells[row - 1][col] = byte;
                assert forall|r: int, c: int|
                    0 <= r < ROWS && 0 <= c < COLS && !(r == row - 1 && T1_END < c < col + 1)
                        implies #[trigger] self.cell(r, c) == entry.cell(r, c) by {
                    assert(self.cell(r, c) == before.cell(r, c));
                }
                assert forall|c: int| T1_END < c < col + 1 implies #[trigger] self.cell(row - 1, c)
                    == t2(k as int, trial@, row - 1, c) by {
                    if c < col {
                        assert(self.cell(row - 1, c) == before.cell(row - 1, c));
                    }
                }
                col += 1;
            }
            proof {
                assert forall|r: int, c: int|
                    0 <= r < ROWS && 0 <= c < COLS && is_fixed(16 - k, r, c)
                        implies #[trigger] self.cell(r, c) == fixed_cell(r, c) by {
                    assert(self.cell(r, c) == entry.cell(r, c));
                }
                assert forall|j: int| 0 <= j < k implies #[trigger] self.cell(
                    16 - k,
                    T1_END + 1 + j,
                ) == trial@[j] && self.cell(16 - k, T2_END + 1 + j) == trial@[j] by {
                    assert(entry.cell(16 - k, T1_END + 1 + j) == trial@[j]);
                    assert(self.cell(16 - k, T1_END + 1 + j) == entry.cell(16 - k, T1_END + 1 + j));
                    assert(self.cell(16 - k, T2_END + 1 + j) == entry.cell(16 - k, T2_END + 1 + j));
                }
                assert forall|r: int, c: int|
                    row - 1 <= r <= rows && T1_END < c <= T2_END implies #[trigger] self.cell(r, c)
                        == t2(k as int, trial@, r, c) by {
                    if r >= row {
                        assert(self.cell(r, c) == entry.cell(r, c));
                    } else if c + (row - 1) > T2_END {
                        assert(is_fixed(16 - k, row - 1, c));
                        assert(self.cell(row - 1, c) == fixed_cell(row - 1, c));
                    }
                }
                assert forall|r: int, c: int|
                    0 <= r < ROWS && 0 <= c < COLS && !(row - 1 <= r < rows && T1_END < c && c + r
                        <= T2_END) implies #[trigger] self.cell(r, c) == placed.cell(r, c) by {
                    assert(self.cell(r, c) == entry.cell(r, c));
                }
            }
            row -= 1;
        }
        let mut message: Vec<u8> = Vec::new();
        let mut i: usize = 0;
        while i < BLOCK_LEN
            invariant
                MIN_FREE <= k <= MAX_FREE,
                i <= BLOCK_LEN,
                message@.len() == i,
                forall|r: int, c: int|
                    0 <= r <= 16 - k && T1_END < c <= T2_END ==> #[trigger] self.cell(r, c) == t2(
                        k as int,
                        trial@,
                        r,
                        c,
                    ),
                forall|j: int| 0 <= j < i ==> message@[j] == t2(k as int, trial@, 0, T1_END + 1 + j),
            decreases BLOCK_LEN - i,
        {
            assert(self.cell(0, T1_END + 1 + i) == t2(k as int, trial@, 0, T1_END + 1 + i));
            message.push(self.cells[0][T1_END + 1 + i]);
            i += 1;
        }
        assert(message@ =~= message_of(k as int, trial@));
        message
    }
}

} // verus!

//! The rounds of the MD2 compression function, one table row at a time.
//!
//! A row holds the 48 working bytes (columns 1 to 48 of the table). Row
//! `r + 1` comes from row `r` by one round: every byte is xored with the
//! substitution of the byte to its left in the new row, the first one with
//! the substitution of the carry byte of the round.

use vstd::prelude::*;
use vstd::slice::slice_to_vec;
use crate::sbox::{sbox, SBOX};

verus! {

/// The number of working bytes in a row.
pub const ROW_LEN: usize = 48;

/// The number of bytes in a chaining value, a message block or a digest.
pub const BLOCK_LEN: usize = 16;

/// The row after the last round.
pub const LAST_ROW: usize = 18;

/// The carry byte that row `row + 1` starts with, given the last byte of row
/// `row`: their sum less one, modulo 256.
pub open spec fn carry(last: u8, row: int) -> u8 {
    ((last as int + row - 1) % 256) as u8
}

/// Byte `c` of the round that starts with carry `t` on the row `x`. At
/// `c = -1` it is the carry itself.
pub open spec fn mixed(t: u8, x: Seq<u8>, c: int) -> u8
    decreases c + 1,
{
    if c < 0 {
        t
    } else {
        x[c] ^ sbox(mixed(t, x, c - 1))
    }
}

/// One round on the row `x`, started with the carry `t`.
pub open spec fn mix(t: u8, x: Seq<u8>) -> Seq<u8> {
    Seq::new(x.len(), |c: int| mixed(t, x, c))
}

/// Row `row + 1`, given row `row`.
pub open spec fn next_row(x: Seq<u8>, row: int) -> Seq<u8> {
    mix(carry(x[ROW_LEN as int - 1], row), x)
}

/// Row `to`, given that `x` is row `from`; `x` itself unless `from < to`.
pub open spec fn row_at(x: Seq<u8>, from: int, to: int) -> Seq<u8>
    decreases to - from,
{
    if to <= from {
        x
    } else {
        next_row(row_at(x, from, to - 1), to - 1)
    }
}

/// Row `row`, given row `row + 1`: the round undone.
pub open spec fn prev_row(y: Seq<u8>, row: int) -> Seq<u8> {
    let last = y[ROW_LEN as int - 1] ^ sbox(y[ROW_LEN as int - 2]);
    Seq::new(
        y.len(),
        |c: int|
            if c == 0 {
                y[0] ^ sbox(carry(last, row))
            } else {
                y[c] ^ sbox(y[c - 1])
            },
    )
}

/// Row `to`, given that `y` is the later row `from`; `y` itself unless
/// `to < from`.
pub open spec fn row_back(y: Seq<u8>, from: int, to: int) -> Seq<u8>
    decreases from - to,
{
    if from <= to {
        y
    } else {
        prev_row(row_back(y, from, to + 1), to)
    }
}

/// The first 16 bytes of the last row, reached from `state` as row `row`.
pub open spec fn compressed(state: Seq<u8>, row: int) -> Seq<u8> {
    row_at(state, row, LAST_ROW as int).take(BLOCK_LEN as int)
}

/// The middle 16 bytes of row 0, reached backwards from `state` as row `row`.
pub open spec fn decompressed(state: Seq<u8>, row: int) -> Seq<u8> {
    row_back(state, row, 0).subrange(BLOCK_LEN as int, 2 * BLOCK_LEN as int)
}

/// A round keeps the length of the row.
pub proof fn lemma_mix_len(t: u8, x: Seq<u8>)
    ensures
        mix(t, x).len() == x.len(),
{
}

/// Xoring the same byte in twice changes nothing.
pub proof fn lemma_xor_cancel(a: u8, b: u8)
    ensures
        (a ^ b) ^ b == a,
        a ^ (b ^ a) == b,
        a ^ (a ^ b) == b,
        a ^ 0 == a,
{
    assert((a ^ b) ^ b == a) by (bit_vector);
    assert(a ^ (b ^ a) == b) by (bit_vector);
    assert(a ^ (a ^ b) == b) by (bit_vector);
    assert(a ^ 0 == a) by (bit_vector);
}

/// The carry for row `row + 1`, computed with wrapping bytes.
pub(crate) fn carry_byte(last: u8, row: usize) -> (t: u8)
    ensures
        t == carry(last, row as int),
{
    let low: u8 = (row % 256) as u8;
    last.wrapping_add(low).wrapping_sub(1)
}

/// Runs one round in place, started with the carry `t`.
fn mix_in_place(x: &mut Vec<u8>, t: u8)
    requires
        old(x)@.len() == ROW_LEN,
    ensures
        final(x)@ == mix(t, old(x)@),
{
    let mut left: u8 = t;
    let mut c: usize = 0;
    while c < ROW_LEN
        invariant
            c <= ROW_LEN,
            x@.len() == ROW_LEN,
            old(x)@.len() == ROW_LEN,
            left == mixed(t, old(x)@, c as int - 1),
            forall|j: int| 0 <= j < c ==> x@[j] == mixed(t, old(x)@, j),
            forall|j: int| c <= j < ROW_LEN ==> x@[j] == old(x)@[j],
        decreases ROW_LEN - c,
    {
        let byte: u8 = x[c] ^ SBOX[left as usize];
        x[c] = byte;
        left = byte;
        c += 1;
    }
    assert(x@ =~= mix(t, old(x)@));
}

/// Runs the rounds that are left from row `iteration` to the last row, and
/// returns the first 16 bytes of that row: the chaining value that the
/// compression function hands on.
pub fn compress(state: &[u8], iteration: usize) -> (digest: Vec<u8>)
    requires
        state@.len() == ROW_LEN,
    ensures
        digest@ == compressed(state@, iteration as int),
{
    let mut x: Vec<u8> = slice_to_vec(state);
    let mut row: usize = iteration;
    while row < LAST_ROW
        invariant
            iteration <= row,
            x@.len() == ROW_LEN,
            row <= LAST_ROW || row == iteration,
            x@ == row_at(state@, iteration as int, row as int),
        decreases LAST_ROW - row,
    {
        let t: u8 = carry_byte(x[ROW_LEN - 1], row);
        mix_in_place(&mut x, t);
        row += 1;
    }
    let ghost last = x@;
    assert(last == row_at(state@, iteration as int, LAST_ROW as int));
    x.truncate(BLOCK_LEN);
    assert(x@ =~= last.take(BLOCK_LEN as int));
    x
}

/// Undoes one round in place: from row `row + 1` to row `row`.
fn unmix_in_place(x: &mut Vec<u8>, row: usize)
    requires
        old(x)@.len() == ROW_LEN,
    ensures
        final(x)@ == prev_row(old(x)@, row as int),
{
    let mut c: usize = ROW_LEN - 1;
    while c > 0
        invariant
            c < ROW_LEN,
            x@.len() == ROW_LEN,
            old(x)@.len() == ROW_LEN,
            forall|j: int| 0 <= j <= c ==> x@[j] == old(x)@[j],
            forall|j: int| c < j < ROW_LEN ==> x@[j] == old(x)@[j] ^ sbox(old(x)@[j - 1]),
        decreases c,
    {
        let byte: u8 = x[c] ^ SBOX[x[c - 1] as usize];
        x[c] = byte;
        c -= 1;
    }
    let t: u8 = carry_byte(x[ROW_LEN - 1], row);
    let first: u8 = x[0] ^ SBOX[t as usize];
    x[0] = first;
    assert(x@ =~= prev_row(old(x)@, row as int));
}

/// Undoes the rounds from row `iteration` back to row 0 and returns the
/// middle 16 bytes of that row: the message block that leads to `state`.
pub fn decompress(state: &[u8], iteration: usize) -> (message: Vec<u8>)
    requires
        state@.len() == ROW_LEN,
    ensures
        message@ == decompressed(state@, iteration as int),
{
    let mut x: Vec<u8> = slice_to_vec(state);
    let mut row: usize = iteration;
    while row > 0
        invariant
            row <= iteration,
            x@.len() == ROW_LEN,
            x@ == row_back(state@, iteration as int, row as int),
        decreases row,
    {
        row -= 1;
        unmix_in_place(&mut x, row);
    }
    let mut message: Vec<u8> = Vec::new();
    let mut c: usize = BLOCK_LEN;
    while c < 2 * BLOCK_LEN
        invariant
            BLOCK_LEN <= c <= 2 * BLOCK_LEN,
            x@.len() == ROW_LEN,
            message@ == x@.subrange(BLOCK_LEN as int, c as int),
        decreases 2 * BLOCK_LEN - c,
    {
        message.push(x[c]);
        assert(message@ =~= x@.subrange(BLOCK_LEN as int, c as int + 1));
        c += 1;
    }
    message
}

} // verus!

//! Why trials with one fingerprint give colliding messages.
//!
//! The table that a trial stands for is the run of the MD2 compression
//! function on the message of the trial, from the all-zero chaining value:
//! each row is the round of the row above it. Below the fixed rows the first
//! block of a row depends on the carry bytes alone, and those are the
//! fingerprint. So two trials with one fingerprint end in the same first
//! block of the last row, which is the chaining value that the compression
//! hands on.

use vstd::prelude::*;
use crate::candidates::{candidate_row, with_trial, CANDIDATE_BYTES};
use crate::collector::{added, crowded, holds, place_of, Group};
use crate::search::{recovered, searched, trial_at};
use crate::counter::{digits_of, lemma_digits_len};
use crate::rounds::{
    carry, compressed, decompressed, lemma_xor_cancel, mix, mixed, next_row, prev_row, row_at,
    row_back, BLOCK_LEN, LAST_ROW, ROW_LEN,
};
use crate::sbox::{lemma_sbox_inverse, sbox, sboxi};
use crate::table::{
    prefilled_cell, prefilled_row, t1, tri, MAX_FREE, MIN_FREE, T1_END, T2_END,
};
use crate::walker::{
    fingerprint_of, lemma_trace_row_len, lemma_trace_row_unfold, lemma_trace_step, message_of, t2,
    trace_carry, trace_row, upper_row,
};

verus! {

/// The all-zero chaining value.
pub open spec fn zero_block() -> Seq<u8> {
    Seq::new(BLOCK_LEN as nat, |i: int| 0u8)
}

/// The 48 working bytes before the first round: the chaining value, the
/// message block, and the two xored.
pub open spec fn initial_row(chaining: Seq<u8>, block: Seq<u8>) -> Seq<u8> {
    Seq::new(
        ROW_LEN as nat,
        |i: int|
            if i < BLOCK_LEN {
                chaining[i]
            } else if i < 2 * BLOCK_LEN {
                block[i - BLOCK_LEN]
            } else {
                block[i - 2 * BLOCK_LEN] ^ chaining[i - 2 * BLOCK_LEN]
            },
    )
}

/// The MD2 compression function: 18 rounds on the working bytes, the first
/// with carry 0 and each later one with the carry of the row before it; the
/// chaining value handed on is the first block of the last row.
pub open spec fn compression(chaining: Seq<u8>, block: Seq<u8>) -> Seq<u8> {
    row_at(mix(0, initial_row(chaining, block)), 1, LAST_ROW as int).take(BLOCK_LEN as int)
}

/// The chaining value at the end of the table of the trial `b`: the first
/// block of row 18.
pub open spec fn digest_of(k: int, b: Seq<u8>) -> Seq<u8> {
    trace_row(k, b, LAST_ROW as int).take(BLOCK_LEN as int)
}

/// Where `y` follows the rule of a round on `x` up to byte `c`, it is that
/// round up to there.
proof fn lemma_mixed_matches(t: u8, x: Seq<u8>, y: Seq<u8>, c: int)
    requires
        0 <= c < x.len(),
        x.len() == y.len(),
        forall|i: int|
            0 <= i <= c ==> #[trigger] y[i] == x[i] ^ sbox(
                if i == 0 {
                    t
                } else {
                    y[i - 1]
                },
            ),
    ensures
        mixed(t, x, c) == y[c],
    decreases c,
{
    if c > 0 {
        lemma_mixed_matches(t, x, y, c - 1);
    } else {
        assert(mixed(t, x, -1) == t);
    }
}

/// Where `y` follows the rule of a round on `x` in every byte, it is that
/// round.
proof fn lemma_mix_matches(t: u8, x: Seq<u8>, y: Seq<u8>)
    requires
        x.len() == y.len(),
        forall|i: int|
            0 <= i < x.len() ==> #[trigger] y[i] == x[i] ^ sbox(
                if i == 0 {
                    t
                } else {
                    y[i - 1]
                },
            ),
    ensures
        mix(t, x) == y,
{
    assert forall|c: int| 0 <= c < x.len() implies mix(t, x)[c] == y[c] by {
        lemma_mixed_matches(t, x, y, c);
    }
    assert(mix(t, x) =~= y);
}

/// In the fixed rows the second block follows the rule of a round: in the
/// triangle because the inverse substitution was used to fill it, above the
/// free bytes because the round was undone there.
proof fn lemma_t2_step(k: int, b: Seq<u8>, r: int, c: int)
    requires
        MIN_FREE <= k <= MAX_FREE,
        1 <= r <= 16 - k,
        T1_END < c <= T2_END,
    ensures
        t2(k, b, r, c) == t2(k, b, r - 1, c) ^ sbox(t2(k, b, r, c - 1)),
{
    if c + (r - 1) > T2_END {
        let d = T2_END - c;
        let a = tri(r, d);
        let above = tri(r - 1, d);
        assert(t2(k, b, r, c) == a);
        assert(t2(k, b, r - 1, c) == above);
        assert(tri(r, d + 1) == sboxi(a ^ above));
        assert(t2(k, b, r, c - 1) == tri(r, d + 1));
        lemma_sbox_inverse(a ^ above);
        lemma_xor_cancel(above, a);
    } else {
        let a = t2(k, b, r, c);
        let s = sbox(t2(k, b, r, c - 1));
        assert(t2(k, b, r - 1, c) == a ^ s);
        lemma_xor_cancel(a, s);
    }
}

/// Each byte of a fixed row is the byte above it, xored with the
/// substitution of the byte to its left (of the carry, for the first).
proof fn lemma_upper_cell(k: int, b: Seq<u8>, r: int, i: int)
    requires
        MIN_FREE <= k <= MAX_FREE,
        1 <= r <= 16 - k,
        0 <= i < ROW_LEN,
    ensures
        upper_row(k, b, r)[i] == upper_row(k, b, r - 1)[i] ^ sbox(
            if i == 0 {
                t1(r, 0)
            } else {
                upper_row(k, b, r)[i - 1]
            },
        ),
{
    if i < T1_END {
    } else if i < T2_END {
        lemma_t2_step(k, b, r, i + 1);
    } else {
        lemma_t2_step(k, b, r, i + 1 - BLOCK_LEN);
        if i == T2_END {
            assert(t2(k, b, r, T2_END as int) == tri(r, 0));
            assert(t2(k, b, r, T1_END as int) == t1(r, T1_END as int));
        }
    }
}

/// Each fixed row is the round of the row above it.
proof fn lemma_upper_row_step(k: int, b: Seq<u8>, r: int)
    requires
        MIN_FREE <= k <= MAX_FREE,
        1 <= r <= 16 - k,
    ensures
        upper_row(k, b, r) == mix(t1(r, 0), upper_row(k, b, r - 1)),
        r >= 2 ==> upper_row(k, b, r) == next_row(upper_row(k, b, r - 1), r - 1),
{
    let x = upper_row(k, b, r - 1);
    let y = upper_row(k, b, r);
    assert forall|i: int| 0 <= i < x.len() implies #[trigger] y[i] == x[i] ^ sbox(
        if i == 0 {
            t1(r, 0)
        } else {
            y[i - 1]
        },
    ) by {
        lemma_upper_cell(k, b, r, i);
    }
    lemma_mix_matches(t1(r, 0), x, y);
    if r >= 2 {
        assert(x[ROW_LEN as int - 1] == t2(k, b, r - 1, T2_END as int));
        assert(t2(k, b, r - 1, T2_END as int) == tri(r - 1, 0));
    }
}

/// Every row of the table of a trial, from the second on, is the round of
/// the row above it.
pub proof fn lemma_trace_is_a_run(k: int, b: Seq<u8>, r: int)
    requires
        MIN_FREE <= k <= MAX_FREE,
        1 <= r,
    ensures
        r == 1 ==> trace_row(k, b, 1) == mix(0, trace_row(k, b, 0)),
        r >= 2 ==> trace_row(k, b, r) == next_row(trace_row(k, b, r - 1), r - 1),
{
    if r <= 16 - k {
        lemma_upper_row_step(k, b, r);
    } else {
        lemma_trace_row_unfold(k, b, r);
    }
}

/// The rounds run from row 0 of the table of a trial reach each of its
/// rows.
proof fn lemma_run_reaches(k: int, b: Seq<u8>, r: int)
    requires
        MIN_FREE <= k <= MAX_FREE,
        1 <= r,
    ensures
        row_at(mix(0, trace_row(k, b, 0)), 1, r) == trace_row(k, b, r),
    decreases r,
{
    lemma_trace_is_a_run(k, b, r);
    if r > 1 {
        lemma_run_reaches(k, b, r - 1);
    }
}

/// Row 0 of the table of a trial is where the compression of its message
/// starts from the all-zero chaining value.
proof fn lemma_initial_row(k: int, b: Seq<u8>)
    requires
        MIN_FREE <= k <= MAX_FREE,
    ensures
        initial_row(zero_block(), message_of(k, b)) == trace_row(k, b, 0),
{
    let start = initial_row(zero_block(), message_of(k, b));
    let row = trace_row(k, b, 0);
    assert forall|i: int| 0 <= i < ROW_LEN implies start[i] == row[i] by {
        if i >= 2 * BLOCK_LEN {
            lemma_xor_cancel(message_of(k, b)[i - 2 * BLOCK_LEN], 0);
        }
    }
    assert(start =~= row);
}

/// The table of a trial ends in the chaining value that MD2 compresses the
/// message of the trial to, from the all-zero chaining value.
pub proof fn lemma_digest_is_compression(k: int, b: Seq<u8>)
    requires
        MIN_FREE <= k <= MAX_FREE,
    ensures
        compression(zero_block(), message_of(k, b)) == digest_of(k, b),
{
    lemma_initial_row(k, b);
    lemma_run_reaches(k, b, LAST_ROW as int);
}

/// The carry bytes of the rows below the fixed ones are the same for two
/// trials with one fingerprint.
proof fn lemma_carries_agree(k: int, a: Seq<u8>, b: Seq<u8>, r: int)
    requires
        MIN_FREE <= k <= MAX_FREE,
        fingerprint_of(k, a) == fingerprint_of(k, b),
        16 - k < r <= LAST_ROW,
    ensures
        trace_carry(k, a, r) == trace_carry(k, b, r),
{
    if r == 17 - k {
        assert(upper_row(k, a, 16 - k)[ROW_LEN as int - 1] == t2(k, a, 16 - k, T2_END as int));
        assert(upper_row(k, b, 16 - k)[ROW_LEN as int - 1] == t2(k, b, 16 - k, T2_END as int));
        assert(t2(k, a, 16 - k, T2_END as int) == tri(16 - k, 0));
        assert(t2(k, b, 16 - k, T2_END as int) == tri(16 - k, 0));
    } else {
        let i = r - (18 - k);
        assert(fingerprint_of(k, a)[i] == trace_carry(k, a, 18 - k + i));
        assert(fingerprint_of(k, b)[i] == trace_carry(k, b, 18 - k + i));
    }
}

/// From the last fixed row on, the first blocks of the rows are the same
/// for two trials with one fingerprint, byte by byte.
proof fn lemma_first_block_agrees(k: int, a: Seq<u8>, b: Seq<u8>, r: int, c: int)
    requires
        MIN_FREE <= k <= MAX_FREE,
        fingerprint_of(k, a) == fingerprint_of(k, b),
        16 - k <= r <= LAST_ROW,
        0 <= c < BLOCK_LEN,
    ensures
        trace_row(k, a, r)[c] == trace_row(k, b, r)[c],
    decreases r, c,
{
    if r > 16 - k {
        lemma_trace_step(k, a, r, c);
        lemma_trace_step(k, b, r, c);
        lemma_first_block_agrees(k, a, b, r - 1, c);
        if c == 0 {
            lemma_carries_agree(k, a, b, r);
        } else {
            lemma_first_block_agrees(k, a, b, r, c - 1);
        }
    }
}

/// Two trials with one fingerprint end in the same chaining value.
pub proof fn lemma_digest_by_fingerprint(k: int, a: Seq<u8>, b: Seq<u8>)
    requires
        MIN_FREE <= k <= MAX_FREE,
        fingerprint_of(k, a) == fingerprint_of(k, b),
    ensures
        digest_of(k, a) == digest_of(k, b),
{
    lemma_trace_row_len(k, a, LAST_ROW as int);
    lemma_trace_row_len(k, b, LAST_ROW as int);
    assert forall|c: int| 0 <= c < BLOCK_LEN implies digest_of(k, a)[c] == digest_of(k, b)[c] by {
        lemma_first_block_agrees(k, a, b, LAST_ROW as int, c);
    }
    assert(digest_of(k, a) =~= digest_of(k, b));
}

/// Trials with one fingerprint give colliding messages: MD2 compresses the
/// messages of the two trials to the same chaining value, from the all-zero
/// one.
pub proof fn lemma_equal_fingerprints_collide(k: int, a: Seq<u8>, b: Seq<u8>)
    requires
        MIN_FREE <= k <= MAX_FREE,
        fingerprint_of(k, a) == fingerprint_of(k, b),
    ensures
        compression(zero_block(), message_of(k, a)) == compression(
            zero_block(),
            message_of(k, b),
        ),
{
    lemma_digest_is_compression(k, a);
    lemma_digest_is_compression(k, b);
    lemma_digest_by_fingerprint(k, a, b);
}

/// Every trial stands in the group of its own fingerprint.
pub open spec fn keyed(groups: Seq<Group>, k: int) -> bool {
    forall|i: int, j: int|
        0 <= i < groups.len() && 0 <= j < groups[i].trials.len() ==> fingerprint_of(
            k,
            #[trigger] groups[i].trials[j],
        ) == groups[i].fingerprint
}

/// MD2 compresses all of the messages to one chaining value, from the
/// all-zero one.
pub open spec fn collide(messages: Seq<Seq<u8>>) -> bool {
    forall|m: int, n: int|
        0 <= m < messages.len() && 0 <= n < messages.len() ==> compression(
            zero_block(),
            #[trigger] messages[m],
        ) == compression(zero_block(), #[trigger] messages[n])
}

/// A trial added under its own fingerprint keeps every trial in the group
/// of its fingerprint.
proof fn lemma_added_keyed(groups: Seq<Group>, k: int, trial: Seq<u8>)
    requires
        keyed(groups, k),
    ensures
        keyed(added(groups, fingerprint_of(k, trial), trial), k),
{
    let fp = fingerprint_of(k, trial);
    let after = added(groups, fp, trial);
    assert forall|i: int, j: int|
        0 <= i < after.len() && 0 <= j < after[i].trials.len() implies fingerprint_of(
        k,
        #[trigger] after[i].trials[j],
    ) == after[i].fingerprint by {
        if i < groups.len() && j < groups[i].trials.len() {
            assert(fingerprint_of(k, groups[i].trials[j]) == groups[i].fingerprint);
            if holds(groups, fp) && i == place_of(groups, fp) {
                assert(groups[i].fingerprint == fp);
            }
        }
    }
}

/// A search keeps every trial in the group of its fingerprint.
proof fn lemma_searched_keyed(start: Seq<Group>, k: int, prefix: Seq<u8>, n: nat)
    requires
        keyed(start, k),
    ensures
        keyed(searched(start, k, prefix, n), k),
    decreases n,
{
    if n > 0 {
        lemma_searched_keyed(start, k, prefix, (n - 1) as nat);
        lemma_added_keyed(
            searched(start, k, prefix, (n - 1) as nat),
            k,
            trial_at(k, prefix, (n - 1) as nat),
        );
    }
}

/// The collisions among groups whose trials stand under their own
/// fingerprint are such groups.
proof fn lemma_crowded_keyed(groups: Seq<Group>, k: int)
    requires
        keyed(groups, k),
    ensures
        keyed(crowded(groups), k),
    decreases groups.len(),
{
    if groups.len() > 0 {
        let head = groups.drop_last();
        assert forall|i: int, j: int|
            0 <= i < head.len() && 0 <= j < head[i].trials.len() implies fingerprint_of(
            k,
            #[trigger] head[i].trials[j],
        ) == head[i].fingerprint by {
            assert(fingerprint_of(k, groups[i].trials[j]) == groups[i].fingerprint);
        }
        lemma_crowded_keyed(head, k);
        let found = crowded(groups);
        let before = crowded(head);
        assert forall|i: int, j: int|
            0 <= i < found.len() && 0 <= j < found[i].trials.len() implies fingerprint_of(
            k,
            #[trigger] found[i].trials[j],
        ) == found[i].fingerprint by {
            if i < before.len() {
                assert(fingerprint_of(k, before[i].trials[j]) == before[i].fingerprint);
            } else {
                let last = groups.len() - 1;
                assert(fingerprint_of(k, groups[last].trials[j]) == groups[last].fingerprint);
            }
        }
    }
}

/// Collision correctness: the messages of every collision that a search
/// finds do collide. In each group of the messages recovered from the
/// collisions of a search, MD2 compresses all messages to one chaining
/// value, from the all-zero one.
pub proof fn lemma_found_collisions_collide(k: int, start: Seq<Group>, prefix: Seq<u8>, n: nat)
    requires
        MIN_FREE <= k <= MAX_FREE,
        keyed(start, k),
    ensures
        forall|g: int|
            0 <= g < recovered(k, crowded(searched(start, k, prefix, n))).len() ==> collide(
                #[trigger] recovered(k, crowded(searched(start, k, prefix, n)))[g],
            ),
{
    let groups = crowded(searched(start, k, prefix, n));
    let all = recovered(k, groups);
    lemma_searched_keyed(start, k, prefix, n);
    lemma_crowded_keyed(searched(start, k, prefix, n), k);
    assert forall|g: int| 0 <= g < all.len() implies collide(#[trigger] all[g]) by {
        let messages = all[g];
        assert forall|m: int, n: int|
            0 <= m < messages.len() && 0 <= n < messages.len() implies compression(
            zero_block(),
            #[trigger] messages[m],
        ) == compression(zero_block(), #[trigger] messages[n]) by {
            let a = groups[g].trials[m];
            let b = groups[g].trials[n];
            assert(fingerprint_of(k, a) == groups[g].fingerprint);
            assert(fingerprint_of(k, b) == groups[g].fingerprint);
            lemma_equal_fingerprints_collide(k, a, b);
        }
    }
}

/// The row `row` with the bytes of `b` at the start of its second block
/// and again at the start of its third.
pub open spec fn placed(row: Seq<u8>, b: Seq<u8>) -> Seq<u8> {
    Seq::new(
        row.len(),
        |i: int|
            if BLOCK_LEN <= i < BLOCK_LEN + b.len() {
                b[i - BLOCK_LEN]
            } else if 2 * BLOCK_LEN <= i < 2 * BLOCK_LEN + b.len() {
                b[i - 2 * BLOCK_LEN]
            } else {
                row[i]
            },
    )
}

/// The last fixed row of the precomputed table, with a trial in its free
/// bytes, is the row that the trial stands for.
pub proof fn lemma_placed_is_search_row(k: int, b: Seq<u8>)
    requires
        MIN_FREE <= k <= MAX_FREE,
        b.len() == k,
    ensures
        placed(prefilled_row(16 - k), b) == upper_row(k, b, 16 - k),
{
    let rows = 16 - k;
    let row = placed(prefilled_row(rows), b);
    assert forall|i: int| 0 <= i < ROW_LEN implies row[i] == upper_row(k, b, rows)[i] by {
        let c = i + 1;
        assert(prefilled_row(rows)[i] == prefilled_cell(rows, rows, c));
    }
    assert(row =~= upper_row(k, b, rows));
}

/// Two bytes written over the start of a trial that stands in a row give
/// the row with the new trial.
pub proof fn lemma_with_trial_is_placed(row: Seq<u8>, old: Seq<u8>, head: Seq<u8>, rest: Seq<u8>)
    requires
        row.len() == ROW_LEN,
        old.len() == 2,
        head.len() == 2,
        rest.len() <= BLOCK_LEN - 2,
    ensures
        with_trial(placed(row, old + rest), head) == placed(row, head + rest),
{
    assert(with_trial(placed(row, old + rest), head) =~= placed(row, head + rest));
}

/// A fixed row, walked one round back, is the row above it, but for the
/// first byte of row 0.
proof fn lemma_back_step(k: int, b: Seq<u8>, r: int, c: int)
    requires
        MIN_FREE <= k <= MAX_FREE,
        1 <= r <= 16 - k,
        0 <= c < ROW_LEN,
        r >= 2 || c >= 1,
    ensures
        prev_row(upper_row(k, b, r), r - 1)[c] == upper_row(k, b, r - 1)[c],
{
    let x = upper_row(k, b, r - 1);
    let y = upper_row(k, b, r);
    lemma_upper_cell(k, b, r, c);
    lemma_upper_cell(k, b, r, ROW_LEN as int - 1);
    if c >= 1 {
        lemma_xor_cancel(x[c], sbox(y[c - 1]));
    } else {
        let last = y[ROW_LEN as int - 1] ^ sbox(y[ROW_LEN as int - 2]);
        lemma_xor_cancel(x[ROW_LEN as int - 1], sbox(y[ROW_LEN as int - 2]));
        assert(last == x[ROW_LEN as int - 1]);
        assert(x[ROW_LEN as int - 1] == t2(k, b, r - 1, T2_END as int));
        assert(t2(k, b, r - 1, T2_END as int) == tri(r - 1, 0));
        assert(carry(last, r - 1) == t1(r, 0));
        lemma_xor_cancel(x[0], sbox(t1(r, 0)));
    }
}

/// The last fixed row, walked back, reaches each fixed row above it.
proof fn lemma_walk_back(k: int, b: Seq<u8>, r: int)
    requires
        MIN_FREE <= k <= MAX_FREE,
        1 <= r <= 16 - k,
    ensures
        row_back(upper_row(k, b, 16 - k), 16 - k, r) == upper_row(k, b, r),
    decreases 16 - k - r,
{
    if r < 16 - k {
        lemma_walk_back(k, b, r + 1);
        let back = prev_row(upper_row(k, b, r + 1), r);
        assert forall|c: int| 0 <= c < ROW_LEN implies back[c] == upper_row(k, b, r)[c] by {
            lemma_back_step(k, b, r + 1, c);
        }
        assert(back =~= upper_row(k, b, r));
    }
}

/// The row that a trial stands for, compressed and decompressed as a row
/// of 48 bytes, gives the chaining value and the message of the trial.
pub proof fn lemma_search_row_walks(k: int, b: Seq<u8>)
    requires
        MIN_FREE <= k <= MAX_FREE,
    ensures
        compressed(upper_row(k, b, 16 - k), 16 - k) == digest_of(k, b),
        decompressed(upper_row(k, b, 16 - k), 16 - k) == message_of(k, b),
{
    let rows = 16 - k;
    let start = upper_row(k, b, rows);
    lemma_walk_back(k, b, 1);
    let back = row_back(start, rows, 0);
    assert(back == prev_row(row_back(start, rows, 1), 0));
    assert forall|i: int| 0 <= i < BLOCK_LEN implies decompressed(start, rows)[i] == message_of(
        k,
        b,
    )[i] by {
        lemma_back_step(k, b, 1, BLOCK_LEN + i);
    }
    assert(decompressed(start, rows) =~= message_of(k, b));
}

/// A candidate is a collision candidate in earnest: the chaining value
/// that the row of a trial is compressed to is the one that MD2 compresses
/// the decompressed message to, from the all-zero chaining value.
pub proof fn lemma_candidate_is_compression(k: int, b: Seq<u8>)
    requires
        MIN_FREE <= k <= MAX_FREE,
        b.len() == k,
    ensures
        compression(
            zero_block(),
            decompressed(placed(prefilled_row(16 - k), b), 16 - k),
        ) == compressed(placed(prefilled_row(16 - k), b), 16 - k),
{
    lemma_placed_is_search_row(k, b);
    lemma_search_row_walks(k, b);
    lemma_digest_is_compression(k, b);
}

/// Every candidate of a search row is a message with its chaining value:
/// where a run of candidates was started on the last fixed row of the
/// precomputed table, with `rest` in the free bytes behind the first two,
/// the chaining value of candidate `n` is the one that MD2 compresses its
/// message to, from the all-zero chaining value.
pub proof fn lemma_candidates_are_compressions(k: int, rest: Seq<u8>, n: nat)
    requires
        2 <= k <= MAX_FREE,
        rest.len() == k - 2,
    ensures
        ({
            let zeros = seq![0u8, 0u8];
            let state = placed(prefilled_row(16 - k), zeros + rest);
            let row = candidate_row(with_trial(state, zeros), n);
            compression(zero_block(), decompressed(row, 16 - k)) == compressed(row, 16 - k)
        }),
{
    let zeros = seq![0u8, 0u8];
    let head = digits_of(CANDIDATE_BYTES as nat, n);
    let start = prefilled_row(16 - k);
    lemma_digits_len(CANDIDATE_BYTES as nat, n);
    lemma_with_trial_is_placed(start, zeros, zeros, rest);
    lemma_with_trial_is_placed(start, zeros, head, rest);
    lemma_candidate_is_compression(k, head + rest);
}

} // verus!

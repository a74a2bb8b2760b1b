//! The candidates of one search row: for each value of its first two free
//! bytes, the chaining value that the row leads to and the message that it
//! comes from.

use vstd::prelude::*;
use vstd::slice::slice_to_vec;
use crate::counter::{digits_of, lemma_digits_len, pow256, ByteRange};
use crate::rounds::{compress, compressed, decompress, decompressed, BLOCK_LEN, ROW_LEN};

verus! {

/// The number of free bytes that a run of candidates counts through.
pub const CANDIDATE_BYTES: usize = 2;

/// The number of candidates of one row: `256^2`.
pub const CANDIDATE_COUNT: usize = 65536;

/// The row `state` with the two bytes of `b` at the start of its second
/// block and again at the start of its third.
pub open spec fn with_trial(state: Seq<u8>, b: Seq<u8>) -> Seq<u8> {
    state.update(BLOCK_LEN as int, b[0]).update(BLOCK_LEN + 1, b[1]).update(
        2 * BLOCK_LEN as int,
        b[0],
    ).update(2 * BLOCK_LEN + 1, b[1])
}

/// The row from which candidate `n` of the row `state` is computed.
pub open spec fn candidate_row(state: Seq<u8>, n: nat) -> Seq<u8> {
    with_trial(state, digits_of(CANDIDATE_BYTES as nat, n))
}

/// Two bytes written over two others leave no trace of them.
pub proof fn lemma_with_trial_twice(state: Seq<u8>, a: Seq<u8>, b: Seq<u8>)
    requires
        state.len() == ROW_LEN,
    ensures
        with_trial(with_trial(state, a), b) == with_trial(state, b),
{
    assert(with_trial(with_trial(state, a), b) =~= with_trial(state, b));
}

/// A run through the candidates of one row.
pub struct Candidates {
    range: ByteRange,
    state: Vec<u8>,
    row: usize,
}

impl Candidates {
    /// The run holds a row of 48 bytes and counts through two of them.
    pub closed spec fn wf(&self) -> bool {
        self.state@.len() == ROW_LEN && self.range.width() == CANDIDATE_BYTES
    }

    /// The row that the run was made for, with zeros for its first two free
    /// bytes.
    pub closed spec fn template(&self) -> Seq<u8> {
        with_trial(self.state@, seq![0u8, 0u8])
    }

    /// The number of the row in the table.
    pub closed spec fn row(&self) -> usize {
        self.row
    }

    /// How many candidates the run has yielded so far.
    pub closed spec fn position(&self) -> nat {
        self.range.position()
    }

    /// Yields the next candidate, or `None` after all 65536: candidate `n`
    /// is the pair of the chaining value and the message of the row with the
    /// two bytes that spell `n` as its first free bytes.
    pub fn next(&mut self) -> (item: Option<(Vec<u8>, Vec<u8>)>)
        requires
            old(self).wf(),
        ensures
            final(self).wf(),
            final(self).template() == old(self).template(),
            final(self).row() == old(self).row(),
            match item {
                Some((key, message)) => {
                    &&& old(self).position() < CANDIDATE_COUNT
                    &&& key@ == compressed(
                        candidate_row(old(self).template(), old(self).position()),
                        old(self).row() as int,
                    )
                    &&& message@ == decompressed(
                        candidate_row(old(self).template(), old(self).position()),
                        old(self).row() as int,
                    )
                    &&& final(self).position() == old(self).position() + 1
                },
                None => {
                    &&& old(self).position() >= CANDIDATE_COUNT
                    &&& final(self).position() == old(self).position()
                },
            },
    {
        proof {
            assert(pow256(2) == 256 * pow256(1));
            assert(pow256(1) == 256 * pow256(0));
            lemma_digits_len(CANDIDATE_BYTES as nat, self.range.position());
        }
        let ghost zeros = seq![0u8, 0u8];
        let ghost before = self.state@;
        match self.range.next() {
            None => None,
            Some(bytes) => {
                self.state[BLOCK_LEN] = bytes[0];
                self.state[BLOCK_LEN + 1] = bytes[1];
                self.state[2 * BLOCK_LEN] = bytes[0];
                self.state[2 * BLOCK_LEN + 1] = bytes[1];
                proof {
                    assert(self.state@ =~= with_trial(before, bytes@));
                    lemma_with_trial_twice(before, zeros, bytes@);
                    lemma_with_trial_twice(before, bytes@, zeros);
                }
                let key = compress(self.state.as_slice(), self.row);
                let message = decompress(self.state.as_slice(), self.row);
                Some((key, message))
            },
        }
    }
}

/// Starts a run through the candidates of the row `state`, which is row
/// `row` of the table without its carry byte.
pub fn candidates(state: &[u8], row: usize) -> (run: Candidates)
    requires
        state@.len() == ROW_LEN,
    ensures
        run.wf(),
        run.template() == with_trial(state@, seq![0u8, 0u8]),
        run.row() == row,
        run.position() == 0,
{
    Candidates { range: ByteRange::new(CANDIDATE_BYTES), state: slice_to_vec(state), row }
}

} // verus!

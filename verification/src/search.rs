//! The search: every trial of a shard walked forward and collected by its
//! fingerprint, and the messages of the collisions recovered.
//!
//! A shard is the set of trials that start with one prefix. The shard of the
//! empty prefix is the whole search; the shards of all prefixes of one length
//! split it into parts that can be searched apart, each on a copy of the
//! precomputed table, and merged afterwards.

use vstd::prelude::*;
use vstd::slice::slice_to_vec;
use crate::collector::{added, crowded, groups_of, strings, Bucket, Collisions, Group};
use crate::counter::{digits_of, lemma_digits_len, pow256, ByteRange};
use crate::table::{
    create_initial_state, TTable, COLS, MAX_FREE, MIN_FREE, ROWS, T1_END, T2_END,
};
use crate::walker::{fingerprint_of, message_of};

verus! {

/// Why a search could not be made.
#[derive(Clone, Copy, Debug, PartialEq, Eq)]
pub enum SearchError {
    /// The number of free bytes is not in the range from 1 to 14.
    InvalidParameter,
}

/// Trial `n` of the shard of `prefix`, for `k` free bytes: the prefix,
/// then the bytes that spell `n`.
pub open spec fn trial_at(k: int, prefix: Seq<u8>, n: nat) -> Seq<u8> {
    prefix + digits_of((k - prefix.len()) as nat, n)
}

/// The groups after the first `n` trials of a shard have been added to
/// `start`, each under its fingerprint.
pub open spec fn searched(start: Seq<Group>, k: int, prefix: Seq<u8>, n: nat) -> Seq<Group>
    decreases n,
{
    if n == 0 {
        start
    } else {
        let trial = trial_at(k, prefix, (n - 1) as nat);
        added(searched(start, k, prefix, (n - 1) as nat), fingerprint_of(k, trial), trial)
    }
}

/// The number of trials in the shard of a prefix of `p` bytes.
pub open spec fn shard_size(k: int, p: int) -> nat {
    pow256((k - p) as nat)
}

/// The groups that the whole search of `k` free bytes finds.
pub open spec fn search_result(k: int) -> Seq<Group> {
    searched(Seq::empty(), k, Seq::empty(), shard_size(k, 0))
}

/// Every trial in the groups has `k` bytes.
pub open spec fn all_of_len(groups: Seq<Group>, k: int) -> bool {
    forall|i: int, j: int|
        0 <= i < groups.len() && 0 <= j < groups[i].trials.len() ==> (
        #[trigger] groups[i].trials[j]).len() == k
}

/// The messages of the trials, group by group.
pub open spec fn recovered(k: int, groups: Seq<Group>) -> Seq<Seq<Seq<u8>>> {
    Seq::new(
        groups.len(),
        |i: int|
            Seq::new(groups[i].trials.len(), |j: int| message_of(k, groups[i].trials[j])),
    )
}

/// The byte strings that a vector of vectors of byte vectors holds.
pub open spec fn nested(v: Seq<Vec<Vec<u8>>>) -> Seq<Seq<Seq<u8>>> {
    Seq::new(v.len(), |i: int| strings(v[i]@))
}

/// A trial of `k` bytes added to groups of such trials leaves groups of
/// such trials.
pub proof fn lemma_added_len(groups: Seq<Group>, k: int, fp: Seq<u8>, trial: Seq<u8>)
    requires
        all_of_len(groups, k),
        trial.len() == k,
    ensures
        all_of_len(added(groups, fp, trial), k),
{
    let after = added(groups, fp, trial);
    assert forall|i: int, j: int|
        0 <= i < after.len() && 0 <= j < after[i].trials.len() implies (
    #[trigger] after[i].trials[j]).len() == k by {
        if i < groups.len() && j < groups[i].trials.len() {
            assert(groups[i].trials[j].len() == k);
        }
    }
}

/// The collisions among groups of trials of `k` bytes are such groups.
pub proof fn lemma_crowded_len(groups: Seq<Group>, k: int)
    requires
        all_of_len(groups, k),
    ensures
        all_of_len(crowded(groups), k),
    decreases groups.len(),
{
    if groups.len() > 0 {
        let head = groups.drop_last();
        assert forall|i: int, j: int|
            0 <= i < head.len() && 0 <= j < head[i].trials.len() implies (
        #[trigger] head[i].trials[j]).len() == k by {
            assert(groups[i].trials[j].len() == k);
        }
        lemma_crowded_len(head, k);
        let found = crowded(groups);
        let before = crowded(head);
        assert forall|i: int, j: int|
            0 <= i < found.len() && 0 <= j < found[i].trials.len() implies (
        #[trigger] found[i].trials[j]).len() == k by {
            if i < before.len() {
                assert(before[i].trials[j].len() == k);
            } else {
                assert(groups[groups.len() - 1].trials[j].len() == k);
            }
        }
    }
}

/// Searches the shard of `prefix`: walks every trial that starts with the
/// prefix forward, in the order of the counter, and adds it to `found` under
/// its fingerprint.
pub fn search_shard(table: &mut TTable, k: usize, prefix: &[u8], found: &mut Collisions)
    requires
        MIN_FREE <= k <= MAX_FREE,
        prefix@.len() <= k,
        old(table).is_prefilled(k as int),
        old(found).wf(),
    ensures
        final(table).is_prefilled(k as int),
        final(found).wf(),
        final(found)@ == searched(
            old(found)@,
            k as int,
            prefix@,
            shard_size(k as int, prefix@.len() as int),
        ),
        all_of_len(old(found)@, k as int) ==> all_of_len(final(found)@, k as int),
        forall|r: int, c: int|
            0 <= r < ROWS && 0 <= c < COLS && (r < 16 - k || (r == ROWS - 1 && c >= 1))
                ==> #[trigger] final(table).cell(r, c) == old(table).cell(r, c),
{
    let width: usize = k - prefix.len();
    let mut range = ByteRange::new(width);
    let mut more = true;
    while more
        invariant
            MIN_FREE <= k <= MAX_FREE,
            prefix@.len() + width == k,
            range.width() == width,
            range.position() <= pow256(width as nat),
            !more ==> range.position() == pow256(width as nat),
            table.is_prefilled(k as int),
            found.wf(),
            found@ == searched(old(found)@, k as int, prefix@, range.position()),
            all_of_len(old(found)@, k as int) ==> all_of_len(found@, k as int),
            forall|r: int, c: int|
                0 <= r < ROWS && 0 <= c < COLS && (r < 16 - k || (r == ROWS - 1 && c >= 1))
                    ==> #[trigger] table.cell(r, c) == old(table).cell(r, c),
        decreases
                pow256(width as nat) - range.position() + if more {
                    1nat
                } else {
                    0nat
                },
    {
        let ghost n = range.position();
        let ghost before = found@;
        let ghost entry = *table;
        match range.next() {
            None => {
                more = false;
            },
            Some(suffix) => {
                let mut trial: Vec<u8> = slice_to_vec(prefix);
                let mut j: usize = 0;
                while j < suffix.len()
                    invariant
                        j <= suffix@.len(),
                        trial@ == prefix@ + suffix@.take(j as int),
                    decreases suffix@.len() - j,
                {
                    trial.push(suffix[j]);
                    assert(trial@ =~= prefix@ + suffix@.take(j + 1));
                    j += 1;
                }
                proof {
                    assert(suffix@.take(j as int) =~= suffix@);
                    lemma_digits_len(width as nat, n);
                    assert(trial@ == trial_at(k as int, prefix@, n));
                }
                let key = table.fingerprint(k, trial.as_slice());
                found.add(key, trial);
                proof {
                    assert forall|r: int, c: int|
                        0 <= r < ROWS && 0 <= c < COLS && (r < 16 - k || (r == ROWS - 1 && c
                            >= 1)) implies #[trigger] table.cell(r, c) == old(table).cell(r, c) by {
                        assert(table.cell(r, c) == entry.cell(r, c));
                    }
                    range.lemma_position_bound();
                    if all_of_len(old(found)@, k as int) {
                        lemma_added_len(before, k as int, key@, trial@);
                    }
                }
            },
        }
    }
}

/// Searches all `256^k` trials of `k` free bytes on the precomputed table
/// `state`, and returns the messages of the collisions: for each
/// fingerprint that two or more trials share, in the order in which the
/// fingerprints first came, the messages of those trials in the order of
/// the trials.
pub fn find_collisions(state: TTable, k: usize) -> (messages: Vec<Vec<Vec<u8>>>)
    requires
        MIN_FREE <= k <= MAX_FREE,
        state.is_prefilled(k as int),
    ensures
        nested(messages@) == recovered(k as int, crowded(search_result(k as int))),
{
    let mut table = state;
    let mut found = Collisions::new();
    let prefix: Vec<u8> = Vec::new();
    search_shard(&mut table, k, prefix.as_slice(), &mut found);
    let groups = found.collisions();
    proof {
        assert(prefix@ =~= Seq::<u8>::empty());
        lemma_crowded_len(found@, k as int);
    }
    recover_messages(&mut table, k, &groups)
}

/// Walks every trial of the groups backward and returns the messages,
/// group by group.
pub fn recover_messages(table: &mut TTable, k: usize, groups: &Vec<Bucket>) -> (messages: Vec<
    Vec<Vec<u8>>,
>)
    requires
        MIN_FREE <= k <= MAX_FREE,
        old(table).is_prefilled(k as int),
        all_of_len(groups_of(groups@), k as int),
    ensures
        final(table).is_prefilled(k as int),
        nested(messages@) == recovered(k as int, groups_of(groups@)),
        forall|r: int, c: int|
            0 <= r < ROWS && 0 <= c < COLS && !(r <= 16 - k && T1_END < c && c + r <= T2_END) && !(r
                == 16 - k && T2_END < c <= T2_END + k) ==> #[trigger] final(table).cell(r, c)
                == old(table).cell(r, c),
{
    let mut messages: Vec<Vec<Vec<u8>>> = Vec::new();
    let mut i: usize = 0;
    while i < groups.len()
        invariant
            MIN_FREE <= k <= MAX_FREE,
            table.is_prefilled(k as int),
            all_of_len(groups_of(groups@), k as int),
            i <= groups@.len(),
            messages@.len() == i,
            forall|m: int|
                0 <= m < i ==> strings(#[trigger] messages@[m]@) == recovered(
                    k as int,
                    groups_of(groups@),
                )[m],
            forall|r: int, c: int|
                0 <= r < ROWS && 0 <= c < COLS && !(r <= 16 - k && T1_END < c && c + r <= T2_END)
                    && !(r == 16 - k && T2_END < c <= T2_END + k) ==> #[trigger] table.cell(r, c)
                    == old(table).cell(r, c),
        decreases groups@.len() - i,
    {
        let bucket = &groups[i];
        let mut row: Vec<Vec<u8>> = Vec::new();
        let mut j: usize = 0;
        while j < bucket.trials.len()
            invariant
                MIN_FREE <= k <= MAX_FREE,
                table.is_prefilled(k as int),
                all_of_len(groups_of(groups@), k as int),
                i < groups@.len(),
                *bucket == groups@[i as int],
                j <= bucket.trials@.len(),
                row@.len() == j,
                forall|m: int|
                    0 <= m < j ==> (#[trigger] row@[m])@ == message_of(
                        k as int,
                        bucket.trials@[m]@,
                    ),
                forall|r: int, c: int|
                    0 <= r < ROWS && 0 <= c < COLS && !(r <= 16 - k && T1_END < c && c + r
                        <= T2_END) && !(r == 16 - k && T2_END < c <= T2_END + k)
                        ==> #[trigger] table.cell(r, c) == old(table).cell(r, c),
            decreases bucket.trials@.len() - j,
        {
            let ghost entry = *table;
            proof {
                let all = groups_of(groups@);
                assert(all[i as int].trials[j as int] == bucket.trials@[j as int]@);
                assert(all[i as int].trials[j as int].len() == k);
            }
            let message = table.recover_message(k, bucket.trials[j].as_slice());
            proof {
                assert forall|r: int, c: int|
                    0 <= r < ROWS && 0 <= c < COLS && !(r <= 16 - k && T1_END < c && c + r
                        <= T2_END) && !(r == 16 - k && T2_END < c <= T2_END + k)
                        implies #[trigger] table.cell(r, c) == old(table).cell(r, c) by {
                    assert(table.cell(r, c) == entry.cell(r, c));
                }
            }
            row.push(message);
            j += 1;
        }
        proof {
            let all = groups_of(groups@);
            assert(strings(row@) =~= recovered(k as int, all)[i as int]);
        }
        messages.push(row);
        i += 1;
    }
    assert(nested(messages@) =~= recovered(k as int, groups_of(groups@)));
    messages
}

/// The whole search for `k` free bytes, from the precomputation on: the
/// collector of all `256^k` trials, or `InvalidParameter` where `k` is not
/// in the range from 1 to 14.
pub fn search(k: usize) -> (result: Result<Collisions, SearchError>)
    ensures
        match result {
            Ok(found) => {
                &&& MIN_FREE <= k <= MAX_FREE
                &&& found.wf()
                &&& found@ == search_result(k as int)
            },
            Err(error) => error == SearchError::InvalidParameter && !(MIN_FREE <= k <= MAX_FREE),
        },
{
    let mut table = match prefill(k) {
        Ok(table) => table,
        Err(error) => {
            return Err(error);
        },
    };
    let mut found = Collisions::new();
    let prefix: Vec<u8> = Vec::new();
    search_shard(&mut table, k, prefix.as_slice(), &mut found);
    assert(prefix@ =~= Seq::<u8>::empty());
    Ok(found)
}

/// The precomputed table for `k` free bytes, or `InvalidParameter` where
/// `k` is not in the range from 1 to 14.
pub fn prefill(k: usize) -> (result: Result<TTable, SearchError>)
    ensures
        match result {
            Ok(table) => {
                &&& MIN_FREE <= k <= MAX_FREE
                &&& table.is_initial(k as int)
                &&& table.is_prefilled(k as int)
                &&& table.ends_agree(16 - k)
            },
            Err(error) => error == SearchError::InvalidParameter && !(MIN_FREE <= k <= MAX_FREE),
        },
{
    if k < MIN_FREE || k > MAX_FREE {
        return Err(SearchError::InvalidParameter);
    }
    Ok(create_initial_state(k))
}

} // verus!

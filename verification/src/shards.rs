//! Shards searched apart count as the whole search.
//!
//! The trials of `k` free bytes that start with one prefix of `q` bytes are
//! a shard; shard `i` is the one whose prefix spells `i`. However the shards
//! are dealt out, searched into collectors and merged, a collector that
//! covers every shard once holds all `256^k` trials under the fingerprints
//! of the whole search, and so counts the collisions of the whole search.
//! Merged in the order of their prefixes, the shards give the whole search
//! itself: the same groups with the same trials in the same order.

use vstd::prelude::*;
use vstd::set_lib::lemma_set_disjoint_lens;
use crate::collector::{extra, merged, wf_groups, Collisions, Group};
use crate::counter::{
    digits_of, lemma_digits_len, lemma_digits_of_value, lemma_value_of_digits, pow256, value_of,
    ByteRange,
};
use crate::merging::{
    keys, lemma_added, lemma_extra_is_total_less_len, lemma_len_is_key_count, lemma_merged,
    lemma_merged_added, total,
};
use crate::search::{
    search_result, search_shard, searched, shard_size, trial_at, SearchError,
};
use crate::table::{create_initial_state, MAX_FREE, MIN_FREE};
use crate::walker::fingerprint_of;

verus! {

/// The fingerprints of the first `n` trials of the shard of `prefix`.
pub open spec fn shard_keys(k: int, prefix: Seq<u8>, n: nat) -> Set<Seq<u8>> {
    Set::new(
        |fp: Seq<u8>|
            exists|j: nat| j < n && fp == fingerprint_of(k, #[trigger] trial_at(k, prefix, j)),
    )
}

/// The fingerprints of all trials of the shards in `done`, for prefixes of
/// `q` bytes.
pub open spec fn keys_of_shards(k: int, q: nat, done: Set<nat>) -> Set<Seq<u8>> {
    Set::new(
        |fp: Seq<u8>|
            exists|i: nat|
                done.contains(i) && (#[trigger] shard_keys(
                    k,
                    digits_of(q, i),
                    shard_size(k, q as int),
                )).contains(fp),
    )
}

/// The numbers below `n`.
pub open spec fn below(n: nat) -> Set<nat> {
    Set::new(|i: nat| i < n)
}

/// The groups hold what the shards in `done` give, each searched once: as
/// many trials as those shards have, under the fingerprints of those
/// trials.
pub open spec fn covers(groups: Seq<Group>, k: int, q: nat, done: Set<nat>) -> bool {
    &&& wf_groups(groups)
    &&& done.finite()
    &&& total(groups) == done.len() * shard_size(k, q as int)
    &&& keys(groups) == keys_of_shards(k, q, done)
}

/// There are `n` numbers below `n`.
pub proof fn lemma_below_len(n: nat)
    ensures
        below(n).finite(),
        below(n).len() == n,
    decreases n,
{
    if n == 0 {
        assert(below(n) =~= Set::<nat>::empty());
    } else {
        lemma_below_len((n - 1) as nat);
        assert(below(n) =~= below((n - 1) as nat).insert((n - 1) as nat));
    }
}

/// Strings of `a + b` bytes are as many as pairs of a string of `a` bytes
/// and one of `b` bytes.
pub proof fn lemma_pow256_sum(a: nat, b: nat)
    ensures
        pow256(a + b) == pow256(a) * pow256(b),
    decreases b,
{
    if b == 0 {
        assert(pow256(a) * 1 == pow256(a)) by (nonlinear_arith);
    } else {
        lemma_pow256_sum(a, (b - 1) as nat);
        let x = pow256(a);
        let y = pow256((b - 1) as nat);
        assert(pow256(a + b) == 256 * pow256((a + b - 1) as nat));
        assert(256 * (x * y) == x * (256 * y)) by (nonlinear_arith);
    }
}

/// The number that two strings spell one after the other.
pub proof fn lemma_value_of_concat(x: Seq<u8>, y: Seq<u8>)
    ensures
        value_of(x + y) == value_of(x) * pow256(y.len()) + value_of(y),
    decreases y.len(),
{
    if y.len() == 0 {
        assert(x + y =~= x);
        assert(value_of(x) * 1 == value_of(x)) by (nonlinear_arith);
    } else {
        let head = y.drop_last();
        lemma_value_of_concat(x, head);
        assert((x + y).drop_last() =~= x + head);
        assert((x + y).last() == y.last());
        let v = value_of(x);
        let p = pow256(head.len());
        let w = value_of(head);
        assert((v * p + w) * 256 == v * (256 * p) + w * 256) by (nonlinear_arith);
    }
}

/// Trial `j` of shard `i` is trial `i * 256^(k - q) + j` of the whole
/// search.
pub proof fn lemma_trial_of_shard(k: nat, q: nat, i: nat, j: nat)
    requires
        q <= k,
        i < pow256(q),
        j < pow256((k - q) as nat),
    ensures
        i * pow256((k - q) as nat) + j < pow256(k),
        trial_at(k as int, digits_of(q, i), j) == trial_at(
            k as int,
            Seq::empty(),
            i * pow256((k - q) as nat) + j,
        ),
{
    let rest = (k - q) as nat;
    let m = pow256(rest);
    let prefix = digits_of(q, i);
    let suffix = digits_of(rest, j);
    let n = i * m + j;
    lemma_value_of_digits(q, i);
    lemma_value_of_digits(rest, j);
    lemma_value_of_concat(prefix, suffix);
    lemma_digits_of_value(prefix + suffix);
    lemma_pow256_sum(q, rest);
    assert(n < pow256(q) * m) by (nonlinear_arith)
        requires
            i < pow256(q),
            j < m,
            n == i * m + j,
    ;
    assert(prefix.len() == q);
    assert(trial_at(k as int, prefix, j) == prefix + suffix);
    assert(trial_at(k as int, Seq::empty(), n) =~= digits_of(k, n));
}

/// Every trial of the whole search is a trial of one shard.
pub proof fn lemma_trial_in_shard(k: nat, q: nat, n: nat)
    requires
        q <= k,
        n < pow256(k),
    ensures
        ({
            let m = pow256((k - q) as nat);
            &&& n / m < pow256(q)
            &&& n % m < m
            &&& trial_at(k as int, Seq::empty(), n) == trial_at(
                k as int,
                digits_of(q, n / m),
                n % m,
            )
        }),
{
    let rest = (k - q) as nat;
    let m = pow256(rest);
    lemma_pow256_positive(rest);
    lemma_pow256_sum(q, rest);
    let i = n / m;
    let j = n % m;
    assert(n == i * m + j && j < m) by (nonlinear_arith)
        requires
            m > 0,
            i == n / m,
            j == n % m,
    ;
    assert(i < pow256(q)) by (nonlinear_arith)
        requires
            n < pow256(q) * m,
            n == i * m + j,
            m > 0,
    ;
    lemma_trial_of_shard(k, q, i, j);
}

/// There is at least one string of each length.
pub proof fn lemma_pow256_positive(len: nat)
    ensures
        pow256(len) > 0,
    decreases len,
{
    if len > 0 {
        lemma_pow256_positive((len - 1) as nat);
    }
}

/// What a search of the first `n` trials of a shard adds to groups: `n`
/// trials, and their fingerprints.
pub proof fn lemma_searched_summary(start: Seq<Group>, k: int, prefix: Seq<u8>, n: nat)
    requires
        wf_groups(start),
    ensures
        wf_groups(searched(start, k, prefix, n)),
        total(searched(start, k, prefix, n)) == total(start) + n,
        keys(searched(start, k, prefix, n)) == keys(start).union(shard_keys(k, prefix, n)),
    decreases n,
{
    if n == 0 {
        assert(shard_keys(k, prefix, n) =~= Set::<Seq<u8>>::empty());
        assert(keys(start).union(shard_keys(k, prefix, n)) =~= keys(start));
    } else {
        let before = searched(start, k, prefix, (n - 1) as nat);
        let trial = trial_at(k, prefix, (n - 1) as nat);
        let fp = fingerprint_of(k, trial);
        lemma_searched_summary(start, k, prefix, (n - 1) as nat);
        lemma_added(before, fp, trial);
        assert forall|f: Seq<u8>| shard_keys(k, prefix, n).contains(f) <==> (shard_keys(
            k,
            prefix,
            (n - 1) as nat,
        ).contains(f) || f == fp) by {
            if shard_keys(k, prefix, n).contains(f) {
                let j = choose|j: nat|
                    j < n && f == fingerprint_of(k, #[trigger] trial_at(k, prefix, j));
                if j < n - 1 {
                    assert(shard_keys(k, prefix, (n - 1) as nat).contains(f));
                }
            }
            if shard_keys(k, prefix, (n - 1) as nat).contains(f) {
                let j = choose|j: nat|
                    j < n - 1 && f == fingerprint_of(k, #[trigger] trial_at(k, prefix, j));
                assert(j < n && f == fingerprint_of(k, trial_at(k, prefix, j)));
            }
            if f == fp {
                assert(f == fingerprint_of(k, trial_at(k, prefix, (n - 1) as nat)));
            }
        }
        assert(shard_keys(k, prefix, n) =~= shard_keys(k, prefix, (n - 1) as nat).insert(fp));
        assert(keys(start).union(shard_keys(k, prefix, (n - 1) as nat)).insert(fp) =~= keys(
            start,
        ).union(shard_keys(k, prefix, n)));
    }
}

/// Nothing covers no shard.
pub proof fn lemma_covers_none(k: int, q: nat)
    ensures
        covers(Seq::<Group>::empty(), k, q, Set::<nat>::empty()),
{
    let none = Seq::<Group>::empty();
    assert(keys(none) =~= keys_of_shards(k, q, Set::<nat>::empty()));
    assert(0 * shard_size(k, q as int) == 0) by (nonlinear_arith);
}

/// One more shard searched into the groups is covered with the others.
pub proof fn lemma_covers_shard(groups: Seq<Group>, k: int, q: nat, done: Set<nat>, i: nat)
    requires
        covers(groups, k, q, done),
        !done.contains(i),
    ensures
        covers(
            searched(groups, k, digits_of(q, i), shard_size(k, q as int)),
            k,
            q,
            done.insert(i),
        ),
{
    let m = shard_size(k, q as int);
    let after = searched(groups, k, digits_of(q, i), m);
    lemma_searched_summary(groups, k, digits_of(q, i), m);
    let shard = shard_keys(k, digits_of(q, i), m);
    assert forall|fp: Seq<u8>| keys_of_shards(k, q, done.insert(i)).contains(fp) <==> (
    keys_of_shards(k, q, done).contains(fp) || shard.contains(fp)) by {
        if keys_of_shards(k, q, done.insert(i)).contains(fp) {
            let h = choose|h: nat|
                done.insert(i).contains(h) && (#[trigger] shard_keys(k, digits_of(q, h), m)).contains(
                    fp,
                );
            if h != i {
                assert(done.contains(h));
            }
        }
        if keys_of_shards(k, q, done).contains(fp) {
            let h = choose|h: nat|
                done.contains(h) && (#[trigger] shard_keys(k, digits_of(q, h), m)).contains(fp);
            assert(done.insert(i).contains(h));
        }
        if shard.contains(fp) {
            assert(done.insert(i).contains(i));
        }
    }
    assert(keys(after) =~= keys_of_shards(k, q, done.insert(i)));
    assert((done.len() + 1) * m == done.len() * m + m) by (nonlinear_arith);
}

/// Groups that cover different shards, merged, cover the shards of both.
pub proof fn lemma_covers_merged(
    a: Seq<Group>,
    b: Seq<Group>,
    k: int,
    q: nat,
    done_a: Set<nat>,
    done_b: Set<nat>,
)
    requires
        covers(a, k, q, done_a),
        covers(b, k, q, done_b),
        done_a.disjoint(done_b),
    ensures
        covers(merged(a, b), k, q, done_a.union(done_b)),
{
    let m = shard_size(k, q as int);
    lemma_merged(a, b);
    lemma_set_disjoint_lens(done_a, done_b);
    assert((done_a.len() + done_b.len()) * m == done_a.len() * m + done_b.len() * m)
        by (nonlinear_arith);
    assert forall|fp: Seq<u8>| keys_of_shards(k, q, done_a.union(done_b)).contains(fp) <==> (
    keys_of_shards(k, q, done_a).contains(fp) || keys_of_shards(k, q, done_b).contains(fp)) by {
        if keys_of_shards(k, q, done_a.union(done_b)).contains(fp) {
            let h = choose|h: nat|
                done_a.union(done_b).contains(h) && (#[trigger] shard_keys(
                    k,
                    digits_of(q, h),
                    m,
                )).contains(fp);
            if done_a.contains(h) {
                assert(keys_of_shards(k, q, done_a).contains(fp));
            } else {
                assert(done_b.contains(h));
                assert(keys_of_shards(k, q, done_b).contains(fp));
            }
        }
        if keys_of_shards(k, q, done_a).contains(fp) {
            let h = choose|h: nat|
                done_a.contains(h) && (#[trigger] shard_keys(k, digits_of(q, h), m)).contains(fp);
            assert(done_a.union(done_b).contains(h));
        }
        if keys_of_shards(k, q, done_b).contains(fp) {
            let h = choose|h: nat|
                done_b.contains(h) && (#[trigger] shard_keys(k, digits_of(q, h), m)).contains(fp);
            assert(done_a.union(done_b).contains(h));
        }
    }
    assert(keys(merged(a, b)) =~= keys_of_shards(k, q, done_a.union(done_b)));
}

/// The fingerprint of a trial of a shard is among the fingerprints of the
/// shard.
proof fn lemma_in_shard_keys(k: int, prefix: Seq<u8>, n: nat, j: nat)
    requires
        j < n,
    ensures
        shard_keys(k, prefix, n).contains(fingerprint_of(k, trial_at(k, prefix, j))),
{
}

/// The fingerprints of all shards are the fingerprints of the whole
/// search.
proof fn lemma_keys_of_all_shards(k: nat, q: nat)
    requires
        q <= k,
    ensures
        keys_of_shards(k as int, q, below(pow256(q))) == shard_keys(
            k as int,
            Seq::empty(),
            pow256(k),
        ),
{
    let m = shard_size(k as int, q as int);
    let none = Seq::<u8>::empty();
    let all = keys_of_shards(k as int, q, below(pow256(q)));
    let whole = shard_keys(k as int, none, pow256(k));
    assert forall|fp: Seq<u8>| all.contains(fp) <==> whole.contains(fp) by {
        if all.contains(fp) {
            let i = choose|i: nat|
                below(pow256(q)).contains(i) && (#[trigger] shard_keys(
                    k as int,
                    digits_of(q, i),
                    m,
                )).contains(fp);
            let j = choose|j: nat|
                j < m && fp == fingerprint_of(
                    k as int,
                    #[trigger] trial_at(k as int, digits_of(q, i), j),
                );
            lemma_trial_of_shard(k, q, i, j);
            let n = i * m + j;
            assert(n < pow256(k) && fp == fingerprint_of(k as int, trial_at(k as int, none, n)));
        }
        if whole.contains(fp) {
            let n = choose|n: nat|
                n < pow256(k) && fp == fingerprint_of(
                    k as int,
                    #[trigger] trial_at(k as int, none, n),
                );
            lemma_trial_in_shard(k, q, n);
            let i = (n / m) as nat;
            let j = (n % m) as nat;
            lemma_in_shard_keys(k as int, digits_of(q, i), m, j);
            assert(below(pow256(q)).contains(i));
        }
    }
    assert(all =~= whole);
}

/// Groups that cover every shard count the collisions of the whole
/// search, whatever the order in which the shards were searched and
/// merged.
pub proof fn lemma_all_shards_count_as_the_search(groups: Seq<Group>, k: nat, q: nat)
    requires
        q <= k,
        covers(groups, k as int, q, below(pow256(q))),
    ensures
        extra(groups) == extra(search_result(k as int)),
{
    let none = Seq::<u8>::empty();
    let whole = search_result(k as int);
    lemma_below_len(pow256(q));
    lemma_pow256_sum(q, (k - q) as nat);
    lemma_keys_of_all_shards(k, q);
    lemma_searched_summary(Seq::<Group>::empty(), k as int, none, pow256(k));
    assert(keys(Seq::<Group>::empty()) =~= Set::<Seq<u8>>::empty());
    assert(keys(whole) =~= shard_keys(k as int, none, pow256(k)));
    lemma_extra_is_total_less_len(groups);
    lemma_extra_is_total_less_len(whole);
    lemma_len_is_key_count(groups);
    lemma_len_is_key_count(whole);
}

/// A collector merged in is a search carried on: merging the search of a
/// shard into groups gives what the search of the shard into those groups
/// gives.
pub proof fn lemma_merge_is_search(groups: Seq<Group>, k: int, prefix: Seq<u8>, n: nat)
    requires
        wf_groups(groups),
    ensures
        merged(groups, searched(Seq::empty(), k, prefix, n)) == searched(groups, k, prefix, n),
    decreases n,
{
    let none = Seq::<Group>::empty();
    if n > 0 {
        let trial = trial_at(k, prefix, (n - 1) as nat);
        lemma_merge_is_search(groups, k, prefix, (n - 1) as nat);
        lemma_searched_summary(none, k, prefix, (n - 1) as nat);
        lemma_merged_added(
            groups,
            searched(none, k, prefix, (n - 1) as nat),
            fingerprint_of(k, trial),
            trial,
        );
    }
}

/// The search of shard `i` carries the whole search on from trial
/// `i * 256^(k - q)`.
pub proof fn lemma_shard_carries_on(start: Seq<Group>, k: nat, q: nat, i: nat, j: nat)
    requires
        q <= k,
        i < pow256(q),
        j <= pow256((k - q) as nat),
    ensures
        searched(
            searched(start, k as int, Seq::empty(), i * pow256((k - q) as nat)),
            k as int,
            digits_of(q, i),
            j,
        ) == searched(start, k as int, Seq::empty(), i * pow256((k - q) as nat) + j),
    decreases j,
{
    if j > 0 {
        lemma_shard_carries_on(start, k, q, i, (j - 1) as nat);
        lemma_trial_of_shard(k, q, i, (j - 1) as nat);
    }
}

/// Searches `k` free bytes shard by shard, for prefixes of `fixed` bytes:
/// each shard on a copy of the precomputed table of its own and into a
/// collector of its own, which is then merged into the result. Merged in
/// the order of their prefixes the shards give the whole search, group for
/// group and trial for trial. `InvalidParameter` where `k` is not in the
/// range from 1 to 14 or more bytes are to be fixed than there are.
pub fn search_in_shards(k: usize, fixed: usize) -> (result: Result<Collisions, SearchError>)
    ensures
        match result {
            Ok(found) => {
                &&& MIN_FREE <= k <= MAX_FREE
                &&& fixed <= k
                &&& found.wf()
                &&& found@ == search_result(k as int)
            },
            Err(error) => error == SearchError::InvalidParameter && !(MIN_FREE <= k <= MAX_FREE
                && fixed <= k),
        },
{
    if k < MIN_FREE || k > MAX_FREE || fixed > k {
        return Err(SearchError::InvalidParameter);
    }
    let ghost none = Seq::<u8>::empty();
    let ghost size = shard_size(k as int, fixed as int);
    let start = create_initial_state(k);
    let mut found = Collisions::new();
    let mut prefixes = ByteRange::new(fixed);
    let mut more = true;
    proof {
        assert(0 * size == 0) by (nonlinear_arith);
    }
    while more
        invariant
            MIN_FREE <= k <= MAX_FREE,
            fixed <= k,
            size == shard_size(k as int, fixed as int),
            none == Seq::<u8>::empty(),
            start.is_prefilled(k as int),
            prefixes.width() == fixed,
            prefixes.position() <= pow256(fixed as nat),
            !more ==> prefixes.position() == pow256(fixed as nat),
            found.wf(),
            found@ == searched(Seq::empty(), k as int, none, prefixes.position() * size),
        decreases
                pow256(fixed as nat) - prefixes.position() + if more {
                    1nat
                } else {
                    0nat
                },
    {
        let ghost i = prefixes.position();
        let ghost before = found@;
        match prefixes.next() {
            None => {
                more = false;
            },
            Some(prefix) => {
                let mut table = start;
                let mut part = Collisions::new();
                proof {
                    lemma_digits_len(fixed as nat, i);
                }
                search_shard(&mut table, k, prefix.as_slice(), &mut part);
                proof {
                    found.lemma_wf_groups();
                    lemma_merge_is_search(before, k as int, prefix@, size);
                    lemma_shard_carries_on(Seq::empty(), k as nat, fixed as nat, i, size);
                    assert((i + 1) * size == i * size + size) by (nonlinear_arith);
                    prefixes.lemma_position_bound();
                }
                found.merge(&part);
            },
        }
    }
    proof {
        lemma_pow256_sum(fixed as nat, (k - fixed) as nat);
    }
    Ok(found)
}

} // verus!

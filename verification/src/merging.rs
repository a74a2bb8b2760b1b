//! Laws of merging collectors.
//!
//! The collision count of a collector is the number of its trials less the
//! number of its fingerprints. Merging adds the trials up and unites the
//! fingerprints, so the count of a merge does not depend on how the parts
//! were bracketed, nor on their order.

use vstd::prelude::*;
use crate::collector::{absorbed, added, extra, holds, merged, place_of, wf_groups, Group};

verus! {

/// The number of trials in all groups.
pub open spec fn total(groups: Seq<Group>) -> nat
    decreases groups.len(),
{
    if groups.len() == 0 {
        0
    } else {
        total(groups.drop_last()) + groups.last().trials.len()
    }
}

/// The fingerprints that have a group.
pub open spec fn keys(groups: Seq<Group>) -> Set<Seq<u8>> {
    Set::new(|fp: Seq<u8>| holds(groups, fp))
}

/// All but the last of well-formed groups are well formed.
proof fn lemma_wf_drop_last(groups: Seq<Group>)
    requires
        wf_groups(groups),
        groups.len() > 0,
    ensures
        wf_groups(groups.drop_last()),
{
    let head = groups.drop_last();
    assert forall|i: int, j: int| 0 <= i < j < head.len() implies #[trigger] head[i].fingerprint
        != #[trigger] head[j].fingerprint by {
        assert(head[i] == groups[i]);
        assert(head[j] == groups[j]);
    }
    assert forall|i: int| 0 <= i < head.len() implies (#[trigger] head[i]).trials.len() > 0 by {
        assert(head[i] == groups[i]);
    }
}

/// Where no group is empty, the collision count is the number of trials
/// less the number of groups.
pub proof fn lemma_extra_is_total_less_len(groups: Seq<Group>)
    requires
        wf_groups(groups),
    ensures
        extra(groups) + groups.len() == total(groups),
    decreases groups.len(),
{
    if groups.len() > 0 {
        lemma_wf_drop_last(groups);
        lemma_extra_is_total_less_len(groups.drop_last());
        assert(groups.last() == groups[groups.len() - 1]);
    }
}

/// Well-formed groups are as many as their fingerprints.
pub proof fn lemma_len_is_key_count(groups: Seq<Group>)
    requires
        wf_groups(groups),
    ensures
        keys(groups).finite(),
        keys(groups).len() == groups.len(),
    decreases groups.len(),
{
    if groups.len() == 0 {
        assert(keys(groups) =~= Set::<Seq<u8>>::empty());
    } else {
        let head = groups.drop_last();
        let last = groups.last();
        lemma_wf_drop_last(groups);
        lemma_len_is_key_count(head);
        assert forall|fp: Seq<u8>| holds(groups, fp) <==> (holds(head, fp) || fp
            == last.fingerprint) by {
            if holds(groups, fp) {
                let i = place_of(groups, fp);
                if i < head.len() {
                    assert(head[i].fingerprint == fp);
                }
            }
            if holds(head, fp) {
                let i = place_of(head, fp);
                assert(groups[i].fingerprint == fp);
            }
            if fp == last.fingerprint {
                assert(groups[groups.len() - 1].fingerprint == fp);
            }
        }
        assert(keys(groups) =~= keys(head).insert(last.fingerprint));
        if holds(head, last.fingerprint) {
            let i = place_of(head, last.fingerprint);
            assert(groups[i].fingerprint == groups[groups.len() - 1].fingerprint);
        }
    }
}

/// Replacing a group changes the number of trials by the difference of
/// the two sizes.
proof fn lemma_total_update(groups: Seq<Group>, i: int, group: Group)
    requires
        0 <= i < groups.len(),
    ensures
        total(groups.update(i, group)) + groups[i].trials.len() == total(groups)
            + group.trials.len(),
    decreases groups.len(),
{
    let after = groups.update(i, group);
    if i == groups.len() - 1 {
        assert(after.drop_last() =~= groups.drop_last());
    } else {
        assert(after.drop_last() =~= groups.drop_last().update(i, group));
        lemma_total_update(groups.drop_last(), i, group);
    }
}

/// One more trial: the groups stay well formed, its fingerprint is among
/// theirs, and they hold one trial more.
pub proof fn lemma_added(groups: Seq<Group>, fp: Seq<u8>, trial: Seq<u8>)
    requires
        wf_groups(groups),
    ensures
        wf_groups(added(groups, fp, trial)),
        keys(added(groups, fp, trial)) == keys(groups).insert(fp),
        total(added(groups, fp, trial)) == total(groups) + 1,
{
    let after = added(groups, fp, trial);
    if holds(groups, fp) {
        let i = place_of(groups, fp);
        let group = Group { fingerprint: fp, trials: groups[i].trials.push(trial) };
        lemma_total_update(groups, i, group);
        assert forall|m: int| 0 <= m < after.len() implies (#[trigger] after[m]).fingerprint
            == groups[m].fingerprint by {}
        assert forall|m: int, n: int| 0 <= m < n < after.len() implies #[trigger] after[m].fingerprint
            != #[trigger] after[n].fingerprint by {
            assert(groups[m].fingerprint != groups[n].fingerprint);
        }
        assert forall|m: int| 0 <= m < after.len() implies (#[trigger] after[m]).trials.len()
            > 0 by {
            if m != i {
                assert(after[m] == groups[m]);
            }
        }
        assert forall|f: Seq<u8>| holds(after, f) <==> holds(groups, f) by {
            if holds(after, f) {
                let m = place_of(after, f);
                assert(groups[m].fingerprint == f);
            }
            if holds(groups, f) {
                let m = place_of(groups, f);
                assert(after[m].fingerprint == f);
            }
        }
        assert(keys(after) =~= keys(groups).insert(fp));
    } else {
        let group = Group { fingerprint: fp, trials: seq![trial] };
        assert(after.drop_last() =~= groups);
        assert(after.last() == group);
        assert forall|m: int, n: int| 0 <= m < n < after.len() implies #[trigger] after[m].fingerprint
            != #[trigger] after[n].fingerprint by {
            assert(after[m] == groups[m]);
            if n < groups.len() {
                assert(after[n] == groups[n]);
            } else {
                assert(groups[m].fingerprint != fp);
            }
        }
        assert forall|m: int| 0 <= m < after.len() implies (#[trigger] after[m]).trials.len()
            > 0 by {
            if m < groups.len() {
                assert(after[m] == groups[m]);
            }
        }
        assert forall|f: Seq<u8>| holds(after, f) <==> (holds(groups, f) || f == fp) by {
            if holds(after, f) {
                let m = place_of(after, f);
                if m < groups.len() {
                    assert(groups[m].fingerprint == f);
                }
            }
            if holds(groups, f) {
                let m = place_of(groups, f);
                assert(after[m].fingerprint == f);
            }
            if f == fp {
                assert(after[groups.len() as int].fingerprint == f);
            }
        }
        assert(keys(after) =~= keys(groups).insert(fp));
    }
}

/// The trials of one more group: the groups stay well formed, hold its
/// trials more, and its fingerprint is among theirs unless it was empty.
pub proof fn lemma_absorbed(groups: Seq<Group>, fp: Seq<u8>, trials: Seq<Seq<u8>>)
    requires
        wf_groups(groups),
    ensures
        wf_groups(absorbed(groups, fp, trials)),
        total(absorbed(groups, fp, trials)) == total(groups) + trials.len(),
        keys(absorbed(groups, fp, trials)) == if trials.len() > 0 {
            keys(groups).insert(fp)
        } else {
            keys(groups)
        },
    decreases trials.len(),
{
    if trials.len() > 0 {
        let before = absorbed(groups, fp, trials.drop_last());
        lemma_absorbed(groups, fp, trials.drop_last());
        lemma_added(before, fp, trials.last());
        assert(keys(groups).insert(fp).insert(fp) =~= keys(groups).insert(fp));
    }
}

/// A merge of well-formed groups is well formed, holds the trials of both,
/// and has the fingerprints of both.
pub proof fn lemma_merged(a: Seq<Group>, b: Seq<Group>)
    requires
        wf_groups(a),
        wf_groups(b),
    ensures
        wf_groups(merged(a, b)),
        total(merged(a, b)) == total(a) + total(b),
        keys(merged(a, b)) == keys(a).union(keys(b)),
    decreases b.len(),
{
    if b.len() == 0 {
        assert(keys(b) =~= Set::<Seq<u8>>::empty());
        assert(keys(a).union(keys(b)) =~= keys(a));
    } else {
        let head = b.drop_last();
        let last = b.last();
        lemma_wf_drop_last(b);
        lemma_merged(a, head);
        lemma_absorbed(merged(a, head), last.fingerprint, last.trials);
        assert(last == b[b.len() - 1]);
        assert(last.trials.len() > 0);
        assert forall|fp: Seq<u8>| holds(b, fp) <==> (holds(head, fp) || fp
            == last.fingerprint) by {
            if holds(b, fp) {
                let i = place_of(b, fp);
                if i < head.len() {
                    assert(head[i].fingerprint == fp);
                }
            }
            if holds(head, fp) {
                let i = place_of(head, fp);
                assert(b[i].fingerprint == fp);
            }
            if fp == last.fingerprint {
                assert(b[b.len() - 1].fingerprint == fp);
            }
        }
        assert(keys(b) =~= keys(head).insert(last.fingerprint));
        assert(keys(a).union(keys(head)).insert(last.fingerprint) =~= keys(a).union(keys(b)));
    }
}

/// The collision count of a merge: the trials of both parts, less the
/// fingerprints that either has.
pub proof fn lemma_merge_count(a: Seq<Group>, b: Seq<Group>)
    requires
        wf_groups(a),
        wf_groups(b),
    ensures
        keys(a).union(keys(b)).finite(),
        extra(merged(a, b)) + keys(a).union(keys(b)).len() == total(a) + total(b),
{
    lemma_merged(a, b);
    lemma_len_is_key_count(merged(a, b));
    lemma_extra_is_total_less_len(merged(a, b));
}

/// Merging is associative as far as the collision count goes: three
/// collectors merged as `(a, b), c` count as many collisions as merged as
/// `a, (b, c)`.
pub proof fn lemma_merge_count_associative(a: Seq<Group>, b: Seq<Group>, c: Seq<Group>)
    requires
        wf_groups(a),
        wf_groups(b),
        wf_groups(c),
    ensures
        extra(merged(merged(a, b), c)) == extra(merged(a, merged(b, c))),
{
    lemma_merged(a, b);
    lemma_merged(b, c);
    lemma_merge_count(merged(a, b), c);
    lemma_merge_count(a, merged(b, c));
    assert(keys(a).union(keys(b)).union(keys(c)) =~= keys(a).union(keys(b).union(keys(c))));
}

/// The collision count of a merge does not depend on which collector is
/// merged into which.
pub proof fn lemma_merge_count_commutative(a: Seq<Group>, b: Seq<Group>)
    requires
        wf_groups(a),
        wf_groups(b),
    ensures
        extra(merged(a, b)) == extra(merged(b, a)),
{
    lemma_merge_count(a, b);
    lemma_merge_count(b, a);
    assert(keys(a).union(keys(b)) =~= keys(b).union(keys(a)));
}

/// In well-formed groups a fingerprint has one place.
pub proof fn lemma_place_is_unique(groups: Seq<Group>, fp: Seq<u8>, i: int)
    requires
        wf_groups(groups),
        0 <= i < groups.len(),
        groups[i].fingerprint == fp,
    ensures
        holds(groups, fp),
        place_of(groups, fp) == i,
{
    let p = place_of(groups, fp);
    if p < i {
        assert(groups[p].fingerprint != groups[i].fingerprint);
    } else if i < p {
        assert(groups[i].fingerprint != groups[p].fingerprint);
    }
}

/// Trials of different fingerprints can be added in either order, where
/// the fingerprint of one of them has its group already.
proof fn lemma_added_commutes(groups: Seq<Group>, f: Seq<u8>, t: Seq<u8>, g: Seq<u8>, u: Seq<u8>)
    requires
        wf_groups(groups),
        holds(groups, f),
        f != g,
    ensures
        added(added(groups, f, t), g, u) == added(added(groups, g, u), f, t),
{
    let p = place_of(groups, f);
    let first = added(groups, f, t);
    let second = added(groups, g, u);
    lemma_added(groups, f, t);
    lemma_added(groups, g, u);
    assert(first.len() == groups.len());
    assert forall|m: int| 0 <= m < groups.len() implies (#[trigger] first[m]).fingerprint
        == groups[m].fingerprint by {}
    if holds(groups, g) {
        let r = place_of(groups, g);
        assert(second.len() == groups.len());
        assert forall|m: int| 0 <= m < groups.len() implies (#[trigger] second[m]).fingerprint
            == groups[m].fingerprint by {}
        lemma_place_is_unique(first, g, r);
        lemma_place_is_unique(second, f, p);
        assert(added(first, g, u) =~= added(second, f, t));
    } else {
        if holds(first, g) {
            let r = place_of(first, g);
            assert(groups[r].fingerprint == g);
        }
        assert(second[p] == groups[p]);
        lemma_place_is_unique(second, f, p);
        assert(added(first, g, u) =~= added(second, f, t));
    }
}

/// The trials of a group can be added before or after a trial of
/// another fingerprint that has its group already.
proof fn lemma_absorbed_commutes(
    groups: Seq<Group>,
    f: Seq<u8>,
    t: Seq<u8>,
    g: Seq<u8>,
    trials: Seq<Seq<u8>>,
)
    requires
        wf_groups(groups),
        holds(groups, f),
        f != g,
    ensures
        absorbed(added(groups, f, t), g, trials) == added(absorbed(groups, g, trials), f, t),
    decreases trials.len(),
{
    if trials.len() > 0 {
        let head = trials.drop_last();
        let before = absorbed(groups, g, head);
        lemma_absorbed_commutes(groups, f, t, g, head);
        lemma_absorbed(groups, g, head);
        assert(keys(groups).contains(f));
        assert(keys(before).contains(f));
        lemma_added_commutes(before, f, t, g, trials.last());
    }
}

/// Merging commutes with adding: a trial added to the collector that is
/// merged in is a trial added to the merge.
pub proof fn lemma_merged_added(a: Seq<Group>, b: Seq<Group>, f: Seq<u8>, t: Seq<u8>)
    requires
        wf_groups(a),
        wf_groups(b),
    ensures
        merged(a, added(b, f, t)) == added(merged(a, b), f, t),
    decreases b.len(),
{
    let after = added(b, f, t);
    if !holds(b, f) {
        assert(after.drop_last() =~= b);
        let one = seq![t];
        assert(one.drop_last() =~= Seq::<Seq<u8>>::empty());
        assert(absorbed(merged(a, b), f, one) == added(
            absorbed(merged(a, b), f, one.drop_last()),
            f,
            one.last(),
        ));
    } else {
        let i = place_of(b, f);
        let head = b.drop_last();
        let last = b.last();
        let longer = b[i].trials.push(t);
        if i == b.len() - 1 {
            assert(after.drop_last() =~= head);
            assert(longer.drop_last() =~= last.trials);
        } else {
            lemma_wf_drop_last(b);
            assert(head[i].fingerprint == f);
            lemma_place_is_unique(head, f, i);
            assert(after.drop_last() =~= added(head, f, t));
            assert(after.last() == last);
            lemma_merged_added(a, head, f, t);
            lemma_merged(a, head);
            assert(keys(head).contains(f));
            assert(keys(merged(a, head)).contains(f));
            assert(last.fingerprint == b[b.len() - 1].fingerprint);
            assert(b[i].fingerprint != b[b.len() - 1].fingerprint);
            lemma_absorbed_commutes(merged(a, head), f, t, last.fingerprint, last.trials);
        }
    }
}

} // verus!

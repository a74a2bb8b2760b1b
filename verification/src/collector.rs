//! The collision collector: trials grouped by fingerprint.
//!
//! A collector is a sequence of groups, one for each fingerprint that it has
//! seen, in the order in which the fingerprints first came. A group holds the
//! trials with that fingerprint in the order in which they were added. A
//! group of two or more trials is a collision.

use std::collections::HashMap;
use vstd::prelude::*;
use vstd::slice::slice_to_vec;

verus! {

/// A fingerprint and the trials that share it.
pub struct Group {
    pub fingerprint: Seq<u8>,
    pub trials: Seq<Seq<u8>>,
}

/// Whether some group of `groups` has the fingerprint `fp`.
pub open spec fn holds(groups: Seq<Group>, fp: Seq<u8>) -> bool {
    exists|i: int| 0 <= i < groups.len() && #[trigger] groups[i].fingerprint == fp
}

/// The index of a group with the fingerprint `fp`, where there is one.
pub open spec fn place_of(groups: Seq<Group>, fp: Seq<u8>) -> int {
    choose|i: int| 0 <= i < groups.len() && #[trigger] groups[i].fingerprint == fp
}

/// No fingerprint has two groups, and no group is empty.
pub open spec fn wf_groups(groups: Seq<Group>) -> bool {
    &&& forall|i: int, j: int|
        0 <= i < j < groups.len() ==> #[trigger] groups[i].fingerprint
            != #[trigger] groups[j].fingerprint
    &&& forall|i: int| 0 <= i < groups.len() ==> (#[trigger] groups[i]).trials.len() > 0
}

/// The groups after one more trial: appended to the group of its
/// fingerprint, or in a new last group where the fingerprint is new.
pub open spec fn added(groups: Seq<Group>, fp: Seq<u8>, trial: Seq<u8>) -> Seq<Group> {
    if holds(groups, fp) {
        let i = place_of(groups, fp);
        groups.update(i, Group { fingerprint: fp, trials: groups[i].trials.push(trial) })
    } else {
        groups.push(Group { fingerprint: fp, trials: seq![trial] })
    }
}

/// The groups after the trials of one more group, added one by one.
pub open spec fn absorbed(groups: Seq<Group>, fp: Seq<u8>, trials: Seq<Seq<u8>>) -> Seq<Group>
    decreases trials.len(),
{
    if trials.len() == 0 {
        groups
    } else {
        added(absorbed(groups, fp, trials.drop_last()), fp, trials.last())
    }
}

/// The groups of `a` after all groups of `b`, taken in their order.
pub open spec fn merged(a: Seq<Group>, b: Seq<Group>) -> Seq<Group>
    decreases b.len(),
{
    if b.len() == 0 {
        a
    } else {
        absorbed(merged(a, b.drop_last()), b.last().fingerprint, b.last().trials)
    }
}

/// The number of trials that came after the first of their group: over all
/// groups, the sum of their size less one.
pub open spec fn extra(groups: Seq<Group>) -> nat
    decreases groups.len(),
{
    if groups.len() == 0 {
        0
    } else {
        let n = groups.last().trials.len();
        extra(groups.drop_last()) + if n > 0 {
            (n - 1) as nat
        } else {
            0
        }
    }
}

/// The groups of two or more trials, in their order.
pub open spec fn crowded(groups: Seq<Group>) -> Seq<Group>
    decreases groups.len(),
{
    if groups.len() == 0 {
        groups
    } else if groups.last().trials.len() >= 2 {
        crowded(groups.drop_last()).push(groups.last())
    } else {
        crowded(groups.drop_last())
    }
}

/// The byte strings that a vector of byte vectors holds.
pub open spec fn strings(v: Seq<Vec<u8>>) -> Seq<Seq<u8>> {
    Seq::new(v.len(), |i: int| v[i]@)
}

/// A fingerprint and the trials that share it, as the collector stores them.
pub struct Bucket {
    pub fingerprint: Vec<u8>,
    pub trials: Vec<Vec<u8>>,
}

impl View for Bucket {
    type V = Group;

    open spec fn view(&self) -> Group {
        Group { fingerprint: self.fingerprint@, trials: strings(self.trials@) }
    }
}

/// The groups that a vector of buckets holds.
pub open spec fn groups_of(v: Seq<Bucket>) -> Seq<Group> {
    Seq::new(v.len(), |i: int| v[i]@)
}

/// The hash under which the collector files a fingerprint.
pub closed spec fn hash_of(bytes: Seq<u8>) -> u64
    decreases bytes.len(),
{
    if bytes.len() == 0 {
        0xcbf2_9ce4_8422_2325
    } else {
        (hash_of(bytes.drop_last()) ^ (bytes.last() as u64)).wrapping_mul(0x0000_0100_0000_01b3)
    }
}

/// Computes the hash of a fingerprint.
fn hash_bytes(bytes: &[u8]) -> (h: u64)
    ensures
        h == hash_of(bytes@),
{
    let mut h: u64 = 0xcbf2_9ce4_8422_2325;
    let mut i: usize = 0;
    while i < bytes.len()
        invariant
            i <= bytes@.len(),
            h == hash_of(bytes@.take(i as int)),
        decreases bytes@.len() - i,
    {
        assert(bytes@.take(i + 1).drop_last() =~= bytes@.take(i as int));
        h = (h ^ (bytes[i] as u64)).wrapping_mul(0x0000_0100_0000_01b3);
        i += 1;
    }
    assert(bytes@.take(i as int) =~= bytes@);
    h
}

/// Whether two byte strings are equal.
pub fn same_bytes(a: &[u8], b: &[u8]) -> (same: bool)
    ensures
        same == (a@ == b@),
{
    if a.len() != b.len() {
        return false;
    }
    let mut i: usize = 0;
    while i < a.len()
        invariant
            a@.len() == b@.len(),
            i <= a@.len(),
            a@.take(i as int) == b@.take(i as int),
        decreases a@.len() - i,
    {
        if a[i] != b[i] {
            return false;
        }
        assert(a@.take(i + 1) =~= a@.take(i as int).push(a@[i as int]));
        assert(b@.take(i + 1) =~= b@.take(i as int).push(b@[i as int]));
        i += 1;
    }
    assert(a@.take(i as int) =~= a@);
    assert(b@.take(i as int) =~= b@);
    true
}

/// The collector.
pub struct Collisions {
    buckets: Vec<Bucket>,
    index: HashMap<u64, Vec<usize>>,
}

impl View for Collisions {
    type V = Seq<Group>;

    closed spec fn view(&self) -> Seq<Group> {
        groups_of(self.buckets@)
    }
}

impl Collisions {
    /// The bucket indices filed under the hash `h`.
    spec fn chain(&self, h: u64) -> Seq<usize> {
        if self.index@.contains_key(h) {
            self.index@[h]@
        } else {
            Seq::empty()
        }
    }

    /// Every bucket is filed under the hash of its fingerprint, and nothing
    /// is filed that is not a bucket.
    spec fn filed(&self) -> bool {
        &&& forall|i: int|
            0 <= i < self.buckets@.len() ==> self.chain(
                hash_of(#[trigger] self.buckets@[i].fingerprint@),
            ).contains(i as usize)
        &&& forall|h: u64, j: int|
            0 <= j < self.chain(h).len() ==> (#[trigger] self.chain(h)[j]) < self.buckets@.len()
    }

    /// The collector is consistent: its groups are well formed, and its
    /// index finds each of them.
    pub closed spec fn wf(&self) -> bool {
        wf_groups(self@) && self.filed()
    }

    /// The groups of a consistent collector are well formed.
    pub proof fn lemma_wf_groups(&self)
        requires
            self.wf(),
        ensures
            wf_groups(self@),
    {
    }

    /// An empty collector.
    pub fn new() -> (collector: Collisions)
        ensures
            collector.wf(),
            collector@ == Seq::<Group>::empty(),
    {
        let collector = Collisions { buckets: Vec::new(), index: HashMap::new() };
        assert(collector@ =~= Seq::<Group>::empty());
        collector
    }

    /// An empty collector with room for `capacity` fingerprints.
    pub fn with_capacity(capacity: usize) -> (collector: Collisions)
        ensures
            collector.wf(),
            collector@ == Seq::<Group>::empty(),
    {
        let collector = Collisions {
            buckets: Vec::with_capacity(capacity),
            index: HashMap::with_capacity(capacity),
        };
        assert(collector@ =~= Seq::<Group>::empty());
        collector
    }

    /// The index of the bucket with the fingerprint `fp`, if there is one.
    fn find(&self, h: u64, fp: &[u8]) -> (place: Option<usize>)
        requires
            self.wf(),
            h == hash_of(fp@),
        ensures
            match place {
                Some(i) => i < self@.len() && self@[i as int].fingerprint == fp@,
                None => !holds(self@, fp@),
            },
    {
        broadcast use vstd::std_specs::hash::group_hash_axioms;

        match self.index.get(&h) {
            None => {
                assert forall|i: int| 0 <= i < self@.len() implies #[trigger] self@[i].fingerprint
                    != fp@ by {
                    if self@[i].fingerprint == fp@ {
                        assert(self.chain(hash_of(self.buckets@[i].fingerprint@)).contains(
                            i as usize,
                        ));
                    }
                }
                None
            },
            Some(chain) => {
                assert(chain@ == self.chain(h));
                let mut j: usize = 0;
                while j < chain.len()
                    invariant
                        self.wf(),
                        h == hash_of(fp@),
                        chain@ == self.chain(h),
                        j <= chain@.len(),
                        forall|m: int|
                            0 <= m < j ==> self.buckets@[(#[trigger] chain@[m]) as int].fingerprint@
                                != fp@,
                    decreases chain@.len() - j,
                {
                    let i = chain[j];
                    assert(self.chain(h)[j as int] < self.buckets@.len());
                    if same_bytes(self.buckets[i].fingerprint.as_slice(), fp) {
                        return Some(i);
                    }
                    j += 1;
                }
                assert(self.buckets@.len() == self.buckets.len());
                assert forall|i: int| 0 <= i < self@.len() implies #[trigger] self@[i].fingerprint
                    != fp@ by {
                    if self@[i].fingerprint == fp@ {
                        let iu = i as usize;
                        assert(self.buckets@[i].fingerprint@ == fp@);
                        assert(self.chain(hash_of(self.buckets@[i].fingerprint@)).contains(iu));
                        assert(chain@.contains(iu));
                        let m = choose|m: int| 0 <= m < chain@.len() && chain@[m] == iu;
                        assert(self.buckets@[chain@[m] as int].fingerprint@ != fp@);
                    }
                }
                None
            },
        }
    }

    /// Adds a trial under its fingerprint: to the end of the group of that
    /// fingerprint, or as a new last group.
    pub fn add(&mut self, fingerprint: Vec<u8>, trial: Vec<u8>)
        requires
            old(self).wf(),
        ensures
            final(self).wf(),
            final(self)@ == added(old(self)@, fingerprint@, trial@),
    {
        broadcast use vstd::std_specs::hash::group_hash_axioms;

        let h = hash_bytes(fingerprint.as_slice());
        let ghost before = *self;
        match self.find(h, fingerprint.as_slice()) {
            Some(i) => {
                proof {
                    assert(holds(before@, fingerprint@));
                    assert(place_of(before@, fingerprint@) == i);
                }
                self.buckets[i].trials.push(trial);
                proof {
                    assert(self.buckets@[i as int]@.trials =~= before.buckets@[i as int]@.trials.push(
                        trial@,
                    ));
                    assert(self@ =~= added(before@, fingerprint@, trial@));
                    assert forall|m: int| 0 <= m < self.buckets@.len() implies self.chain(
                        hash_of(#[trigger] self.buckets@[m].fingerprint@),
                    ).contains(m as usize) by {
                        assert(self.buckets@[m].fingerprint@ == before.buckets@[m].fingerprint@);
                    }
                    assert forall|m: int, n: int| 0 <= m < n < self@.len() implies #[trigger] self@[m].fingerprint
                        != #[trigger] self@[n].fingerprint by {
                        assert(self@[m].fingerprint == before@[m].fingerprint);
                        assert(self@[n].fingerprint == before@[n].fingerprint);
                    }
                    assert forall|m: int| 0 <= m < self@.len() implies (#[trigger] self@[m]).trials.len()
                        > 0 by {
                        if m != i {
                            assert(self@[m] == before@[m]);
                        }
                    }
                    assert(wf_groups(self@));
                    assert(self.index == before.index);
                    assert forall|g: u64, j: int| 0 <= j < self.chain(g).len() implies (
                    #[trigger] self.chain(g)[j]) < self.buckets@.len() by {
                        assert(before.chain(g)[j] < before.buckets@.len());
                    }
                    assert(self.filed());
                }
            },
            None => {
                let i = self.buckets.len();
                let mut trials: Vec<Vec<u8>> = Vec::new();
                trials.push(trial);
                self.buckets.push(Bucket { fingerprint, trials });
                let mut chain: Vec<usize> = match self.index.remove(&h) {
                    Some(chain) => chain,
                    None => Vec::new(),
                };
                assert(chain@ == before.chain(h));
                chain.push(i);
                self.index.insert(h, chain);
                proof {
                    assert(self.buckets@[i as int]@.trials =~= seq![trial@]);
                    assert(self@ =~= added(before@, fingerprint@, trial@));
                    assert(self.chain(h) == before.chain(h).push(i));
                    assert forall|g: u64| g != h implies self.chain(g) == before.chain(g) by {}
                    assert forall|m: int| 0 <= m < self.buckets@.len() implies self.chain(
                        hash_of(#[trigger] self.buckets@[m].fingerprint@),
                    ).contains(m as usize) by {
                        let g = hash_of(self.buckets@[m].fingerprint@);
                        if m < i {
                            assert(self.buckets@[m] == before.buckets@[m]);
                            assert(before.chain(g).contains(m as usize));
                            let n = choose|n: int|
                                0 <= n < before.chain(g).len() && before.chain(g)[n] == m as usize;
                            assert(self.chain(g)[n] == m as usize);
                        } else {
                            assert(self.chain(h)[before.chain(h).len() as int] == i);
                        }
                    }
                    assert forall|g: u64, j: int| 0 <= j < self.chain(g).len() implies (
                    #[trigger] self.chain(g)[j]) < self.buckets@.len() by {
                        if j < before.chain(g).len() {
                            assert(before.chain(g)[j] < before.buckets@.len());
                        }
                    }
                    assert forall|m: int, n: int| 0 <= m < n < self@.len() implies #[trigger] self@[m].fingerprint
                        != #[trigger] self@[n].fingerprint by {
                        assert(self@[m] == before@[m]);
                        if n < i {
                            assert(self@[n] == before@[n]);
                        }
                    }
                    assert forall|m: int| 0 <= m < self@.len() implies (#[trigger] self@[m]).trials.len()
                        > 0 by {
                        if m < i {
                            assert(self@[m] == before@[m]);
                        }
                    }
                    assert(wf_groups(self@));
                    assert(self.filed());
                }
            },
        }
    }

    /// The number of groups.
    pub fn len(&self) -> (n: usize)
        ensures
            n == self@.len(),
    {
        self.buckets.len()
    }

    /// The collision count: the number of trials that collide with an
    /// earlier one.
    pub fn count(&self) -> (n: u128)
        ensures
            n == extra(self@),
    {
        let mut n: u128 = 0;
        let mut i: usize = 0;
        while i < self.buckets.len()
            invariant
                i <= self.buckets@.len(),
                n == extra(self@.take(i as int)),
                n <= i * usize::MAX,
            decreases self.buckets@.len() - i,
        {
            assert(self@.take(i + 1).drop_last() =~= self@.take(i as int));
            let size = self.buckets[i].trials.len();
            assert(size == self@[i as int].trials.len());
            assert((i + 1) * usize::MAX == i * usize::MAX + usize::MAX) by (nonlinear_arith);
            assert(i * usize::MAX <= u64::MAX * u64::MAX) by (nonlinear_arith)
                requires
                    i <= u64::MAX,
                    usize::MAX <= u64::MAX,
            ;
            if size > 0 {
                n = n + (size - 1) as u128;
            }
            i += 1;
        }
        assert(self@.take(i as int) =~= self@);
        n
    }

    /// Adds every trial of `other`, group by group in the order of `other`
    /// and trial by trial in the order of the group: each group of `other`
    /// ends up behind the group of its fingerprint here, or as a new group
    /// behind those that were here.
    pub fn merge(&mut self, other: &Collisions)
        requires
            old(self).wf(),
            other.wf(),
        ensures
            final(self).wf(),
            final(self)@ == merged(old(self)@, other@),
    {
        let mut i: usize = 0;
        while i < other.buckets.len()
            invariant
                self.wf(),
                i <= other.buckets@.len(),
                self@ == merged(old(self)@, other@.take(i as int)),
            decreases other.buckets@.len() - i,
        {
            let bucket = &other.buckets[i];
            let ghost start = self@;
            let mut j: usize = 0;
            while j < bucket.trials.len()
                invariant
                    self.wf(),
                    j <= bucket.trials@.len(),
                    self@ == absorbed(start, bucket@.fingerprint, bucket@.trials.take(j as int)),
                decreases bucket.trials@.len() - j,
            {
                let fingerprint = slice_to_vec(bucket.fingerprint.as_slice());
                let trial = slice_to_vec(bucket.trials[j].as_slice());
                self.add(fingerprint, trial);
                proof {
                    let upto = bucket@.trials.take(j + 1);
                    assert(upto.drop_last() =~= bucket@.trials.take(j as int));
                    assert(upto.last() == trial@);
                }
                j += 1;
            }
            proof {
                assert(bucket@.trials.take(j as int) =~= bucket@.trials);
                let upto = other@.take(i + 1);
                assert(upto.drop_last() =~= other@.take(i as int));
                assert(upto.last() == bucket@);
            }
            i += 1;
        }
        assert(other@.take(i as int) =~= other@);
    }

    /// The collisions: copies of the groups of two or more trials, in the
    /// order of the groups.
    pub fn collisions(&self) -> (found: Vec<Bucket>)
        ensures
            groups_of(found@) == crowded(self@),
    {
        let mut found: Vec<Bucket> = Vec::new();
        let mut i: usize = 0;
        assert(groups_of(found@) =~= crowded(self@.take(0)));
        while i < self.buckets.len()
            invariant
                i <= self.buckets@.len(),
                groups_of(found@) == crowded(self@.take(i as int)),
            decreases self.buckets@.len() - i,
        {
            assert(self@.take(i + 1).drop_last() =~= self@.take(i as int));
            assert(self@.take(i + 1).last() == self.buckets@[i as int]@);
            if self.buckets[i].trials.len() >= 2 {
                let ghost before = groups_of(found@);
                let copy = copy_bucket(&self.buckets[i]);
                found.push(copy);
                assert(groups_of(found@) =~= before.push(self.buckets@[i as int]@));
            }
            i += 1;
        }
        assert(self@.take(i as int) =~= self@);
        found
    }
}

/// A copy of a bucket.
pub fn copy_bucket(bucket: &Bucket) -> (copy: Bucket)
    ensures
        copy@ == bucket@,
{
    let fingerprint = slice_to_vec(bucket.fingerprint.as_slice());
    let mut trials: Vec<Vec<u8>> = Vec::new();
    let mut j: usize = 0;
    while j < bucket.trials.len()
        invariant
            j <= bucket.trials@.len(),
            trials@.len() == j,
            forall|m: int| 0 <= m < j ==> trials@[m]@ == bucket.trials@[m]@,
        decreases bucket.trials@.len() - j,
    {
        trials.push(slice_to_vec(bucket.trials[j].as_slice()));
        j += 1;
    }
    let copy = Bucket { fingerprint, trials };
    assert(copy@.trials =~= bucket@.trials);
    copy
}

} // verus!

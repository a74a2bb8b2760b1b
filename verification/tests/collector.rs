use md2_collisions::collector::{same_bytes, Bucket, Collisions};

fn view(buckets: &[Bucket]) -> Vec<(Vec<u8>, Vec<Vec<u8>>)> {
    buckets.iter().map(|b| (b.fingerprint.clone(), b.trials.clone())).collect()
}

fn filled(pairs: &[(&[u8], &[u8])]) -> Collisions {
    let mut found = Collisions::new();
    for (fingerprint, trial) in pairs {
        found.add(fingerprint.to_vec(), trial.to_vec());
    }
    found
}

#[test]
fn empty_collector_counts_nothing() {
    let found = Collisions::new();
    assert_eq!(found.len(), 0);
    assert_eq!(found.count(), 0);
    assert!(found.collisions().is_empty());
}

#[test]
fn add_groups_trials_by_fingerprint_in_order() {
    let found = filled(&[
        (&[1, 1, 1], &[0, 0]),
        (&[2, 2, 2], &[0, 1]),
        (&[1, 1, 1], &[0, 2]),
        (&[3], &[0, 3]),
        (&[1, 1, 1], &[0, 4]),
        (&[2, 2, 2], &[0, 5]),
    ]);
    assert_eq!(found.len(), 3);
    assert_eq!(found.count(), 3);
    assert_eq!(
        view(&found.collisions()),
        vec![
            (vec![1, 1, 1], vec![vec![0, 0], vec![0, 2], vec![0, 4]]),
            (vec![2, 2, 2], vec![vec![0, 1], vec![0, 5]]),
        ]
    );
}

#[test]
fn single_trials_are_no_collisions() {
    let found = filled(&[(&[1], &[1]), (&[2], &[2]), (&[3], &[3])]);
    assert_eq!(found.len(), 3);
    assert_eq!(found.count(), 0);
    assert!(found.collisions().is_empty());
}

#[test]
fn fingerprints_of_different_length_are_apart() {
    let found = filled(&[(&[], &[1]), (&[0], &[2]), (&[0, 0], &[3]), (&[], &[4])]);
    assert_eq!(found.len(), 3);
    assert_eq!(found.count(), 1);
    assert_eq!(view(&found.collisions()), vec![(vec![], vec![vec![1], vec![4]])]);
}

#[test]
fn long_fingerprints_are_told_apart() {
    let mut found = Collisions::new();
    for n in 0..2000u32 {
        let mut fingerprint = vec![0u8; 40];
        fingerprint[39] = n as u8;
        fingerprint[20] = (n >> 8) as u8;
        found.add(fingerprint, vec![1]);
    }
    assert_eq!(found.len(), 2000);
    assert_eq!(found.count(), 0);
    let mut fingerprint = vec![0u8; 40];
    fingerprint[39] = 7;
    fingerprint[20] = 3;
    found.add(fingerprint.clone(), vec![2]);
    assert_eq!(found.len(), 2000);
    assert_eq!(found.count(), 1);
    assert_eq!(view(&found.collisions()), vec![(fingerprint, vec![vec![1], vec![2]])]);
}

#[test]
fn merge_appends_groups_and_creates_missing_ones() {
    let mut a = filled(&[(&[1], &[10]), (&[2], &[20]), (&[1], &[11])]);
    let b = filled(&[(&[3], &[30]), (&[2], &[21]), (&[3], &[31]), (&[2], &[22])]);
    a.merge(&b);
    assert_eq!(a.len(), 3);
    assert_eq!(a.count(), 4);
    assert_eq!(
        view(&a.collisions()),
        vec![
            (vec![1], vec![vec![10], vec![11]]),
            (vec![2], vec![vec![20], vec![21], vec![22]]),
            (vec![3], vec![vec![30], vec![31]]),
        ]
    );
    assert_eq!(b.len(), 2);
    assert_eq!(b.count(), 2);
}

#[test]
fn merge_with_an_empty_collector_changes_nothing() {
    let mut a = filled(&[(&[1], &[10]), (&[1], &[11])]);
    a.merge(&Collisions::new());
    assert_eq!(a.count(), 1);
    let mut empty = Collisions::new();
    empty.merge(&a);
    assert_eq!(empty.count(), 1);
    assert_eq!(view(&empty.collisions()), view(&a.collisions()));
}

#[test]
fn merge_counts_the_same_however_it_is_bracketed() {
    let a = [(&[1u8][..], &[1u8][..]), (&[2], &[2]), (&[1], &[3])];
    let b = [(&[2u8][..], &[4u8][..]), (&[3], &[5]), (&[4], &[6])];
    let c = [(&[1u8][..], &[7u8][..]), (&[4], &[8]), (&[5], &[9]), (&[5], &[10])];

    let mut left = filled(&a);
    left.merge(&filled(&b));
    left.merge(&filled(&c));

    let mut inner = filled(&b);
    inner.merge(&filled(&c));
    let mut right = filled(&a);
    right.merge(&inner);

    assert_eq!(left.count(), 5);
    assert_eq!(right.count(), 5);
    assert_eq!(left.len(), right.len());
    assert_eq!(view(&left.collisions()), view(&right.collisions()));
}

#[test]
fn merge_counts_the_same_in_either_order() {
    let a = [(&[1u8][..], &[1u8][..]), (&[2], &[2]), (&[1], &[3])];
    let b = [(&[2u8][..], &[4u8][..]), (&[3], &[5]), (&[1], &[6])];
    let mut ab = filled(&a);
    ab.merge(&filled(&b));
    let mut ba = filled(&b);
    ba.merge(&filled(&a));
    assert_eq!(ab.count(), 3);
    assert_eq!(ba.count(), 3);
}

#[test]
fn same_bytes_compares_length_and_content() {
    assert!(same_bytes(&[], &[]));
    assert!(same_bytes(&[1, 2, 3], &[1, 2, 3]));
    assert!(!same_bytes(&[1, 2, 3], &[1, 2]));
    assert!(!same_bytes(&[1, 2, 3], &[1, 2, 4]));
    assert!(!same_bytes(&[0], &[]));
}

#[test]
fn copy_of_a_bucket_is_equal_and_apart() {
    let bucket = Bucket { fingerprint: vec![1, 2, 3], trials: vec![vec![4, 5], vec![6, 7]] };
    let mut copy = md2_collisions::collector::copy_bucket(&bucket);
    assert_eq!(copy.fingerprint, bucket.fingerprint);
    assert_eq!(copy.trials, bucket.trials);
    copy.trials[0][0] = 0;
    assert_eq!(bucket.trials[0], vec![4, 5]);
}

#[test]
fn collisions_are_copies() {
    let mut found = filled(&[(&[1], &[10]), (&[1], &[11])]);
    let groups = found.collisions();
    found.add(vec![1], vec![12]);
    assert_eq!(groups[0].trials, vec![vec![10], vec![11]]);
    assert_eq!(found.collisions()[0].trials, vec![vec![10], vec![11], vec![12]]);
    assert_eq!(found.count(), 2);
}

#[test]
fn collector_with_capacity_starts_empty() {
    let mut found = Collisions::with_capacity(1 << 16);
    assert_eq!(found.len(), 0);
    assert_eq!(found.count(), 0);
    found.add(vec![1, 2, 3], vec![9]);
    found.add(vec![1, 2, 3], vec![8]);
    assert_eq!(found.len(), 1);
    assert_eq!(found.count(), 1);
}

use md2_collisions::collector::Collisions;
use md2_collisions::counter::ByteRange;
use md2_collisions::oracle::{check_collision, md2_compress, validate};
use md2_collisions::search::{find_collisions, recover_messages, search, search_shard, SearchError};
use md2_collisions::table::create_initial_state;

#[test]
fn search_of_three_free_bytes_in_256_shards_counts_32784() {
    let start = create_initial_state(3);

    // One shard for each value of the first free byte; a shard walks the
    // 65536 values of the other two on its own copy of the table. A walked
    // trial is kept as one number: its fingerprint, then its three bytes.
    let mut walked: Vec<u64> = Vec::with_capacity(1 << 24);
    for shard in 0..=255u8 {
        let mut table = start;
        let mut rest = ByteRange::new(2);
        while let Some(bytes) = rest.next() {
            let trial = [shard, bytes[0], bytes[1]];
            let key = table.fingerprint(3, &trial);
            assert_eq!(key.len(), 4);
            walked.push(u64::from_be_bytes([
                0, key[0], key[1], key[2], key[3], trial[0], trial[1], trial[2],
            ]));
        }
    }
    assert_eq!(walked.len(), 1 << 24);
    walked.sort_unstable();

    let mut table = start;
    let mut count = 0;
    let mut i = 0;
    while i < walked.len() {
        let mut j = i + 1;
        while j < walked.len() && walked[j] >> 24 == walked[i] >> 24 {
            j += 1;
        }
        if j - i > 1 {
            count += j - i - 1;
            let messages: Vec<Vec<u8>> = walked[i..j]
                .iter()
                .map(|number| table.recover_message(3, &number.to_be_bytes()[5..]))
                .collect();
            assert_ne!(messages[0], messages[1]);
            assert!(check_collision(&messages));
        }
        i = j;
    }
    assert_eq!(count, 32784);
}

#[test]
fn search_of_two_free_bytes_counts_141() {
    let found = search(2).unwrap();
    assert_eq!(found.count(), 141);
    assert_eq!(found.len(), 65395);
    assert_eq!(found.collisions().len(), 141);
}

#[test]
fn search_of_one_free_byte_finds_nothing() {
    let found = search(1).unwrap();
    assert_eq!(found.count(), 0);
    assert_eq!(found.len(), 256);
}

#[test]
fn search_rejects_a_number_of_free_bytes_out_of_range() {
    assert!(matches!(search(0), Err(SearchError::InvalidParameter)));
    assert!(matches!(search(15), Err(SearchError::InvalidParameter)));
    assert!(matches!(search(16), Err(SearchError::InvalidParameter)));
    assert!(matches!(search(usize::MAX), Err(SearchError::InvalidParameter)));
    assert!(search(1).is_ok());
}

#[test]
fn collisions_of_two_free_bytes_are_collisions_of_md2() {
    let state = create_initial_state(2);
    let collisions = find_collisions(state, 2);
    assert_eq!(collisions.len(), 141);
    let messages: usize = collisions.iter().map(|c| c.len()).sum();
    assert_eq!(messages - collisions.len(), 141);
    assert!(validate(&collisions));
    for collision in &collisions {
        assert!(collision.len() >= 2);
        for message in collision {
            assert_eq!(message.len(), 16);
            assert_eq!(md2_compress(message), md2_compress(&collision[0]));
        }
        assert_ne!(collision[0], collision[1]);
    }
    assert_eq!(
        collisions[0],
        vec![
            vec![34, 69, 168, 47, 246, 243, 161, 218, 75, 136, 54, 23, 250, 251, 115, 77],
            vec![72, 22, 189, 189, 255, 55, 114, 121, 1, 135, 154, 55, 32, 175, 93, 182],
        ]
    );
}

#[test]
fn collisions_come_in_the_order_of_their_first_trial() {
    let found = search(2).unwrap();
    let groups = found.collisions();
    assert_eq!(groups[0].fingerprint, vec![162, 75, 200]);
    assert_eq!(groups[0].trials, vec![vec![0, 82], vec![106, 135]]);
    assert_eq!(groups[1].fingerprint, vec![224, 66, 254]);
    assert_eq!(groups[1].trials, vec![vec![0, 154], vec![50, 137]]);
    assert_eq!(groups[2].fingerprint, vec![62, 225, 50]);
    assert_eq!(groups[2].trials, vec![vec![2, 212], vec![112, 98]]);
    for pair in groups.windows(2) {
        assert!(pair[0].trials[0] < pair[1].trials[0]);
    }
    for group in &groups {
        for pair in group.trials.windows(2) {
            assert!(pair[0] < pair[1]);
        }
    }
}

#[test]
fn recovered_messages_follow_the_groups() {
    let found = search(2).unwrap();
    let groups = found.collisions();
    let mut table = create_initial_state(2);
    let messages = recover_messages(&mut table, 2, &groups);
    assert_eq!(messages.len(), groups.len());
    let mut fresh = create_initial_state(2);
    for (group, recovered) in groups.iter().zip(&messages) {
        assert_eq!(recovered.len(), group.trials.len());
        for (trial, message) in group.trials.iter().zip(recovered) {
            assert_eq!(&fresh.recover_message(2, trial), message);
        }
    }
}

#[test]
fn shards_searched_into_one_collector_are_the_whole_search() {
    let whole = search(2).unwrap();
    let mut table = create_initial_state(2);
    let mut found = Collisions::new();
    let mut prefixes = ByteRange::new(1);
    while let Some(prefix) = prefixes.next() {
        search_shard(&mut table, 2, &prefix, &mut found);
    }
    assert_eq!(found.count(), 141);
    assert_eq!(found.len(), whole.len());
    let a: Vec<_> = found.collisions().iter().map(|g| g.trials.clone()).collect();
    let b: Vec<_> = whole.collisions().iter().map(|g| g.trials.clone()).collect();
    assert_eq!(a, b);
}

#[test]
fn shards_searched_apart_and_merged_count_as_the_whole_search() {
    let start = create_initial_state(2);
    let mut merged = Collisions::new();
    let mut backwards = Collisions::new();
    let mut parts = Vec::new();
    for first in 0..=255u8 {
        let mut table = start;
        let mut part = Collisions::new();
        search_shard(&mut table, 2, &[first], &mut part);
        assert_eq!(part.len() as u128 + part.count(), 256);
        parts.push(part);
    }
    for part in &parts {
        merged.merge(part);
    }
    for part in parts.iter().rev() {
        backwards.merge(part);
    }
    assert_eq!(merged.count(), 141);
    assert_eq!(backwards.count(), 141);
}

#[test]
fn shard_of_a_whole_trial_holds_that_trial() {
    let mut table = create_initial_state(2);
    let mut found = Collisions::new();
    search_shard(&mut table, 2, &[106, 135], &mut found);
    search_shard(&mut table, 2, &[0, 82], &mut found);
    assert_eq!(found.len(), 1);
    assert_eq!(found.count(), 1);
    let groups = found.collisions();
    assert_eq!(groups[0].fingerprint, vec![162, 75, 200]);
    assert_eq!(groups[0].trials, vec![vec![106, 135], vec![0, 82]]);
}

#[test]
fn prefill_rejects_a_number_of_free_bytes_out_of_range() {
    assert!(matches!(md2_collisions::search::prefill(0), Err(SearchError::InvalidParameter)));
    assert!(matches!(md2_collisions::search::prefill(15), Err(SearchError::InvalidParameter)));
    for k in 1..=14 {
        let table = md2_collisions::search::prefill(k).unwrap();
        assert_eq!(table.cells, create_initial_state(k).cells);
    }
}

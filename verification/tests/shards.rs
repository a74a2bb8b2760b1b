use md2_collisions::search::{search, SearchError};
use md2_collisions::shards::search_in_shards;

#[test]
fn shards_of_one_fixed_byte_count_as_the_whole_search() {
    let found = search_in_shards(2, 1).unwrap();
    assert_eq!(found.count(), 141);
    assert_eq!(found.len(), 65395);
}

#[test]
fn one_shard_is_the_whole_search() {
    let found = search_in_shards(2, 0).unwrap();
    let whole = search(2).unwrap();
    assert_eq!(found.count(), 141);
    assert_eq!(found.len(), whole.len());
    let a: Vec<_> = found.collisions().iter().map(|g| g.trials.clone()).collect();
    let b: Vec<_> = whole.collisions().iter().map(|g| g.trials.clone()).collect();
    assert_eq!(a, b);
}

#[test]
fn shards_of_single_trials_count_as_the_whole_search() {
    let found = search_in_shards(2, 2).unwrap();
    assert_eq!(found.count(), 141);
    let found = search_in_shards(1, 1).unwrap();
    assert_eq!(found.count(), 0);
    assert_eq!(found.len(), 256);
}

#[test]
fn shards_reject_what_cannot_be_searched() {
    assert!(matches!(search_in_shards(0, 0), Err(SearchError::InvalidParameter)));
    assert!(matches!(search_in_shards(15, 2), Err(SearchError::InvalidParameter)));
    assert!(matches!(search_in_shards(2, 3), Err(SearchError::InvalidParameter)));
    assert!(matches!(search_in_shards(14, 15), Err(SearchError::InvalidParameter)));
    assert!(search_in_shards(1, 0).is_ok());
}

#[test]
fn shards_merged_in_order_are_the_whole_search() {
    let whole = search(2).unwrap();
    let groups: Vec<_> =
        whole.collisions().iter().map(|g| (g.fingerprint.clone(), g.trials.clone())).collect();
    for fixed in 0..=2 {
        let found = search_in_shards(2, fixed).unwrap();
        assert_eq!(found.len(), whole.len());
        assert_eq!(found.count(), whole.count());
        let same: Vec<_> =
            found.collisions().iter().map(|g| (g.fingerprint.clone(), g.trials.clone())).collect();
        assert_eq!(same, groups);
    }
}

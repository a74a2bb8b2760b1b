use md2_collisions::counter::ByteRange;

fn drain(range: &mut ByteRange) -> Vec<Vec<u8>> {
    let mut all = Vec::new();
    while let Some(bytes) = range.next() {
        all.push(bytes);
    }
    all
}

#[test]
fn counter_of_two_bytes_starts_and_ends_right() {
    let mut range = ByteRange::new(2);
    let all = drain(&mut range);
    assert_eq!(all.len(), 65536);
    assert_eq!(all[0], vec![0, 0]);
    assert_eq!(all[1], vec![0, 1]);
    assert_eq!(all[255], vec![0, 255]);
    assert_eq!(all[256], vec![1, 0]);
    assert_eq!(all[65535], vec![255, 255]);
}

#[test]
fn counter_yields_the_string_that_spells_the_position() {
    let mut range = ByteRange::new(3);
    let mut n: usize = 0;
    while n < 70000 {
        let bytes = range.next().unwrap();
        assert_eq!(bytes, vec![(n >> 16) as u8, (n >> 8) as u8, n as u8]);
        n += 1;
    }
}

#[test]
fn counter_is_strictly_increasing_and_of_one_length() {
    let mut range = ByteRange::new(2);
    let all = drain(&mut range);
    for pair in all.windows(2) {
        assert_eq!(pair[0].len(), 2);
        assert!(pair[0] < pair[1]);
    }
}

#[test]
fn counter_of_one_byte_yields_every_byte_once() {
    let mut range = ByteRange::new(1);
    let all = drain(&mut range);
    assert_eq!(all.len(), 256);
    for (n, bytes) in all.iter().enumerate() {
        assert_eq!(bytes, &vec![n as u8]);
    }
}

#[test]
fn counter_yields_the_last_string_once_and_then_nothing() {
    let mut range = ByteRange::new(1);
    for _ in 0..255 {
        assert!(range.next().is_some());
    }
    assert_eq!(range.next(), Some(vec![255]));
    assert_eq!(range.next(), None);
    assert_eq!(range.next(), None);
}

#[test]
fn counter_of_no_bytes_yields_the_empty_string_once() {
    let mut range = ByteRange::new(0);
    assert_eq!(range.next(), Some(Vec::new()));
    assert_eq!(range.next(), None);
}

#[test]
fn counter_carries_over_several_bytes() {
    let mut range = ByteRange::new(3);
    let mut last = Vec::new();
    for _ in 0..65536 {
        last = range.next().unwrap();
    }
    assert_eq!(last, vec![0, 255, 255]);
    assert_eq!(range.next(), Some(vec![1, 0, 0]));
}

use std::collections::HashMap;

use md2::block_api::Md2Core;
use md2::digest::array::Array;
use md2::digest::block_api::UpdateCore;
use md2::digest::common::hazmat::SerializableState;
use md2_collisions::rounds::{compress, decompress};
use md2_collisions::{candidates, prefill_row};

// The MD2 compression function on the all-zero chaining value.
fn md2_compress(message: &[u8]) -> Vec<u8> {
    let mut block = [0u8; 16];
    block.copy_from_slice(message);
    let mut core = Md2Core::default();
    core.update_blocks(&[Array::from(block)]);
    core.serialize()[..16].to_vec()
}

// Insert the given candidate pair, consisting of the compressed value and
// the message that leads to it, into the given hash map.
fn insert(map: &mut HashMap<Vec<u8>, Vec<Vec<u8>>>, key: Vec<u8>, msg: Vec<u8>) {
    map.entry(key).or_default().push(msg);
}

// Validate all colliding entries in the given map to ensure that those
// messages do indeed collide when computing their compressed values.
fn validate(map: &HashMap<Vec<u8>, Vec<Vec<u8>>>) -> bool {
    map.iter()
        .filter(|(_, msgs)| msgs.len() > 1)
        .all(|(key, msgs)| msgs.iter().all(|msg| md2_compress(msg) == *key))
}

// Count the number of messages that collide with an earlier one.
fn count(map: &HashMap<Vec<u8>, Vec<Vec<u8>>>) -> usize {
    map.values().fold(0, |count, msgs| count + msgs.len() - 1)
}

#[test]
fn test_k2() {
    let state = prefill_row(14);

    // There will be ~2^16 entries (minus collisions).
    let mut map = HashMap::with_capacity(256 * 256);

    // Iterate and record all candidate pairs.
    let mut run = candidates(&state, 14);
    while let Some((key, msg)) = run.next() {
        insert(&mut map, key, msg);
    }

    assert!(validate(&map));
    assert_eq!(count(&map), 141);
}

#[test]
fn candidates_of_a_shard_of_three_free_bytes() {
    let mut state = prefill_row(13);

    // Set the third bytes of T2 and T3.
    state[18] = 200;
    state[34] = 200;

    let mut map = HashMap::with_capacity(256 * 256);
    let mut run = candidates(&state, 13);
    while let Some((key, msg)) = run.next() {
        insert(&mut map, key, msg);
    }

    assert_eq!(map.len() + count(&map), 65536);
    assert!(map.iter().all(|(key, msgs)| msgs.iter().all(|msg| md2_compress(msg) == *key)));
}

#[test]
fn candidates_are_the_walks_of_the_row() {
    let state = prefill_row(14);
    let mut run = candidates(&state, 14);
    let mut n: usize = 0;
    while let Some((key, msg)) = run.next() {
        if n % 257 == 0 {
            let mut row = state.clone();
            row[16] = (n >> 8) as u8;
            row[17] = n as u8;
            row[32] = (n >> 8) as u8;
            row[33] = n as u8;
            assert_eq!(key, compress(&row, 14));
            assert_eq!(msg, decompress(&row, 14));
            assert_eq!(md2_compress(&msg), key);
        }
        n += 1;
    }
    assert_eq!(n, 65536);
    assert!(run.next().is_none());
}

#[test]
fn candidates_write_over_what_stands_in_the_first_free_bytes() {
    let clean = prefill_row(14);
    let mut dirty = clean.clone();
    dirty[16] = 77;
    dirty[17] = 78;
    dirty[32] = 79;
    dirty[33] = 80;
    let mut a = candidates(&clean, 14);
    let mut b = candidates(&dirty, 14);
    for _ in 0..300 {
        assert_eq!(a.next(), b.next());
    }
}

#[test]
fn first_candidate_of_two_free_bytes() {
    let state = prefill_row(14);
    let mut run = candidates(&state, 14);
    let (key, msg) = run.next().unwrap();
    assert_eq!(msg, vec![34, 23, 9, 176, 236, 180, 220, 143, 86, 6, 101, 23, 9, 192, 130, 91]);
    assert_eq!(key, vec![9, 102, 207, 216, 122, 136, 198, 42, 17, 26, 100, 13, 228, 77, 180, 131]);
}

#[test]
fn compress_at_the_last_row_hands_the_first_block_on() {
    let row: Vec<u8> = (0..48).collect();
    assert_eq!(compress(&row, 18), (0..16).collect::<Vec<u8>>());
    assert_eq!(compress(&row, 25), (0..16).collect::<Vec<u8>>());
    assert_eq!(decompress(&row, 0), (16..32).collect::<Vec<u8>>());
}

#[test]
fn decompress_undoes_the_rounds_of_compress() {
    // One round on from row 3 and back gives row 3 again.
    let row: Vec<u8> = (0..48).map(|i| (i * 37 + 11) as u8).collect();
    let mut below = row.clone();
    let mut t = row[47].wrapping_add(2);
    for byte in below.iter_mut() {
        *byte ^= md2_collisions::sbox::SBOX[t as usize];
        t = *byte;
    }
    assert_eq!(compress(&row, 3), compress(&below, 4));
    assert_eq!(decompress(&below, 4), decompress(&row, 3));
}

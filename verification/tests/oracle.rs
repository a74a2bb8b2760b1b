use md2::block_api::Md2Core;
use md2::digest::array::Array;
use md2::digest::block_api::UpdateCore;
use md2::digest::common::hazmat::SerializableState;
use md2::{Digest, Md2};
use md2_collisions::oracle::{all_same, check_collision, md2_compress, validate};
use md2_collisions::rounds::compress;
use md2_collisions::sbox::SBOX;

#[test]
fn md2_compress_of_known_blocks() {
    assert_eq!(
        md2_compress(&[0u8; 16]),
        Some(vec![49, 129, 123, 59, 199, 125, 131, 87, 151, 49, 61, 82, 110, 136, 184, 99])
    );
    let block: Vec<u8> = (1..=16).collect();
    assert_eq!(
        md2_compress(&block),
        Some(vec![32, 140, 206, 209, 166, 146, 121, 163, 245, 234, 71, 171, 242, 13, 157, 99])
    );
}

#[test]
fn md2_compress_takes_blocks_only() {
    assert_eq!(md2_compress(&[]), None);
    assert_eq!(md2_compress(&[0u8; 15]), None);
    assert_eq!(md2_compress(&[0u8; 17]), None);
}

#[test]
fn md2_compress_is_the_eighteen_rounds_of_the_table() {
    // With 1 as its last byte the message makes the carry of round 0 zero,
    // as MD2 wants it.
    let mut message = [0u8; 16];
    for seed in 0..50u8 {
        for (i, byte) in message.iter_mut().enumerate() {
            *byte = SBOX[(seed as usize * 16 + i) % 256];
        }
        message[15] = 1;
        let mut row = vec![0u8; 16];
        row.extend_from_slice(&message);
        row.extend_from_slice(&message);
        assert_eq!(md2_compress(&message), Some(compress(&row, 0)));
    }
}

#[test]
fn sbox_is_the_table_of_the_md2_crate() {
    // The checksum of the one block `[x, 0, ..]` starts with the
    // substitution of `x`; it stands behind the 48 working bytes.
    for x in 0..=255u8 {
        let mut block = [0u8; 16];
        block[0] = x;
        let mut core = Md2Core::default();
        core.update_blocks(&[Array::from(block)]);
        assert_eq!(core.serialize()[48], SBOX[x as usize]);
    }
    assert_eq!(
        Md2::digest(b"").to_vec(),
        vec![131, 80, 229, 163, 226, 76, 21, 61, 242, 39, 92, 159, 128, 105, 39, 115]
    );
}

#[test]
fn all_same_compares_with_the_first() {
    assert!(all_same(&vec![]));
    assert!(all_same(&vec![vec![1, 2]]));
    assert!(all_same(&vec![vec![1, 2], vec![1, 2], vec![1, 2]]));
    assert!(!all_same(&vec![vec![1, 2], vec![1, 2], vec![1, 3]]));
    assert!(!all_same(&vec![vec![1, 2], vec![1]]));
}

#[test]
fn check_collision_accepts_messages_that_collide() {
    let first = vec![34, 69, 168, 47, 246, 243, 161, 218, 75, 136, 54, 23, 250, 251, 115, 77];
    let second = vec![72, 22, 189, 189, 255, 55, 114, 121, 1, 135, 154, 55, 32, 175, 93, 182];
    assert!(check_collision(&vec![first.clone(), second.clone()]));
    assert!(check_collision(&vec![first.clone()]));
    assert!(check_collision(&vec![]));
    assert!(validate(&vec![vec![first.clone(), second.clone()], vec![second, first]]));
    assert!(validate(&vec![]));
}

#[test]
fn check_collision_rejects_messages_that_do_not_collide() {
    let first = vec![34, 69, 168, 47, 246, 243, 161, 218, 75, 136, 54, 23, 250, 251, 115, 77];
    let other = vec![72, 22, 189, 189, 255, 55, 114, 121, 1, 135, 154, 55, 32, 175, 93, 183];
    assert!(!check_collision(&vec![first.clone(), other.clone()]));
    assert!(!check_collision(&vec![first.clone(), first.clone(), other.clone()]));
    assert!(!validate(&vec![vec![first.clone(), first.clone()], vec![first, other]]));
}

#[test]
fn check_collision_rejects_what_is_no_block() {
    let first = vec![34, 69, 168, 47, 246, 243, 161, 218, 75, 136, 54, 23, 250, 251, 115, 77];
    assert!(!check_collision(&vec![first.clone(), vec![1, 2, 3]]));
    assert!(!check_collision(&vec![vec![]]));
    assert!(!validate(&vec![vec![first], vec![vec![0; 17]]]));
}

use md2_collisions::oracle::md2_compress;
use md2_collisions::rounds::compress;
use md2_collisions::sbox::SBOX;
use md2_collisions::table::create_initial_state;

#[test]
fn fingerprint_of_known_trials() {
    let mut table = create_initial_state(2);
    assert_eq!(table.fingerprint(2, &[0, 0]), vec![156, 206, 168]);
    assert_eq!(table.fingerprint(2, &[1, 2]), vec![41, 157, 23]);
    assert_eq!(table.fingerprint(2, &[255, 255]), vec![122, 127, 78]);
    let mut table = create_initial_state(1);
    assert_eq!(table.fingerprint(1, &[7]), vec![137, 231]);
}

#[test]
fn message_of_known_trials() {
    let mut table = create_initial_state(2);
    assert_eq!(
        table.recover_message(2, &[0, 0]),
        vec![34, 23, 9, 176, 236, 180, 220, 143, 86, 6, 101, 23, 9, 192, 130, 91]
    );
    assert_eq!(
        table.recover_message(2, &[1, 2]),
        vec![35, 55, 148, 100, 48, 20, 225, 95, 101, 106, 68, 167, 146, 200, 37, 68]
    );
    let mut table = create_initial_state(1);
    assert_eq!(
        table.recover_message(1, &[7]),
        vec![169, 9, 235, 119, 194, 112, 78, 12, 169, 147, 136, 63, 129, 82, 32, 118]
    );
}

#[test]
fn walks_with_the_most_free_bytes() {
    let trial: Vec<u8> = (0..14).collect();
    let mut table = create_initial_state(14);
    assert_eq!(
        table.fingerprint(14, &trial),
        vec![33, 112, 57, 234, 211, 112, 21, 68, 130, 178, 139, 154, 57, 81, 192]
    );
    let message = table.recover_message(14, &trial);
    assert_eq!(
        message,
        vec![104, 211, 75, 202, 100, 26, 228, 102, 235, 2, 230, 228, 174, 36, 32, 239]
    );
    assert_eq!(
        md2_compress(&message),
        Some(vec![86, 150, 72, 164, 246, 207, 30, 3, 218, 148, 27, 249, 154, 227, 151, 111])
    );
}

#[test]
fn fingerprint_has_one_byte_more_than_the_trial() {
    for k in 1..=14 {
        let trial = vec![9u8; k];
        let mut table = create_initial_state(k);
        assert_eq!(table.fingerprint(k, &trial).len(), k + 1);
        assert_eq!(table.recover_message(k, &trial).len(), 16);
    }
}

#[test]
fn walks_do_not_depend_on_earlier_walks() {
    let mut fresh = create_initial_state(2);
    let key = fresh.fingerprint(2, &[17, 200]);
    let mut fresh = create_initial_state(2);
    let message = fresh.recover_message(2, &[17, 200]);

    let mut used = create_initial_state(2);
    used.fingerprint(2, &[3, 4]);
    used.recover_message(2, &[250, 1]);
    used.fingerprint(2, &[99, 98]);
    assert_eq!(used.fingerprint(2, &[17, 200]), key);
    assert_eq!(used.fingerprint(2, &[17, 200]), key);
    assert_eq!(used.recover_message(2, &[17, 200]), message);
    assert_eq!(used.recover_message(2, &[17, 200]), message);
    assert_eq!(used.fingerprint(2, &[17, 200]), key);
}

#[test]
fn walks_leave_the_fixed_cells_alone() {
    let start = create_initial_state(3);
    let mut table = start;
    table.fingerprint(3, &[1, 2, 3]);
    table.recover_message(3, &[4, 5, 6]);
    for row in 0..=13 {
        assert_eq!(table.cells[row][..17], start.cells[row][..17]);
    }
    for row in 0..13 {
        assert_eq!(table.cells[row][33..], start.cells[row][33..]);
    }
    assert_eq!(table.cells[13][36..], start.cells[13][36..]);
    assert_eq!(table.cells[14][0], start.cells[14][0]);
    for row in 1..=13 {
        assert_eq!(table.cells[row][16], table.cells[row][32]);
        assert_eq!(table.cells[row][16], table.cells[row][48]);
        // The triangle at the end of the second block.
        assert_eq!(table.cells[row][33 - row..33], start.cells[row][33 - row..33]);
    }
    assert_eq!(table.cells[13][17..20], [4, 5, 6]);
    assert_eq!(table.cells[13][33..36], [4, 5, 6]);
}

#[test]
fn forward_walk_fills_the_rows_by_the_round() {
    let mut table = create_initial_state(2);
    let key = table.fingerprint(2, &[5, 6]);
    let s = &table.cells;
    for row in 15..=17 {
        for col in 1..=48 {
            assert_eq!(s[row][col], SBOX[s[row][col - 1] as usize] ^ s[row - 1][col]);
        }
        assert_eq!(s[row + 1][0], s[row][48].wrapping_add((row - 1) as u8));
    }
    assert_eq!(key, vec![s[16][0], s[17][0], s[18][0]]);
}

#[test]
fn table_of_a_trial_is_the_compression_of_its_message() {
    let mut table = create_initial_state(2);
    for trial in [[0u8, 0u8], [1, 2], [0, 82], [106, 135], [255, 255]] {
        table.fingerprint(2, &trial);
        let message = table.recover_message(2, &trial);
        let row = table.cells[14][1..].to_vec();
        let digest = compress(&row, 14);
        assert_eq!(md2_compress(&message), Some(digest));
    }
}

#[test]
fn trials_with_one_fingerprint_give_colliding_messages() {
    let mut table = create_initial_state(2);
    assert_eq!(table.fingerprint(2, &[0, 82]), table.fingerprint(2, &[106, 135]));
    let first = table.recover_message(2, &[0, 82]);
    let second = table.recover_message(2, &[106, 135]);
    assert_eq!(first, vec![34, 69, 168, 47, 246, 243, 161, 218, 75, 136, 54, 23, 250, 251, 115, 77]);
    assert_eq!(second, vec![72, 22, 189, 189, 255, 55, 114, 121, 1, 135, 154, 55, 32, 175, 93, 182]);
    assert_ne!(first, second);
    let digest = vec![65, 239, 159, 227, 117, 151, 185, 207, 226, 184, 221, 159, 168, 126, 211, 195];
    assert_eq!(md2_compress(&first), Some(digest.clone()));
    assert_eq!(md2_compress(&second), Some(digest));
}

#[test]
fn place_trial_writes_the_free_bytes_twice() {
    let start = create_initial_state(4);
    let mut table = start;
    table.place_trial(4, &[9, 8, 7, 6]);
    assert_eq!(table.cells[12][17..21], [9, 8, 7, 6]);
    assert_eq!(table.cells[12][33..37], [9, 8, 7, 6]);
    for row in 0..19 {
        if row != 12 {
            assert_eq!(table.cells[row], start.cells[row]);
        }
    }
    assert_eq!(table.cells[12][..17], start.cells[12][..17]);
    assert_eq!(table.cells[12][21..33], start.cells[12][21..33]);
    assert_eq!(table.cells[12][37..], start.cells[12][37..]);
}

use md2_collisions::sbox::{SBOX, SBOXI};
use md2_collisions::table::{create_initial_state, prefill_row, TTable};

const ROW_14: [u8; 49] = [
    229, 249, 232, 3, 195, 185, 216, 106, 208, 50, 211, 24, 114, 141, 15, 99, 106, 0, 0, 3, 195,
    185, 216, 106, 208, 50, 211, 24, 114, 141, 15, 99, 106, 0, 0, 3, 195, 185, 216, 106, 208, 50,
    211, 24, 114, 141, 15, 99, 106,
];

fn is_fixed(rows: usize, r: usize, c: usize) -> bool {
    if c == 0 {
        return 1 <= r && r <= rows + 1;
    }
    if r < 1 || r > rows {
        return false;
    }
    if c <= 16 {
        return true;
    }
    let d = if c <= 32 { 32 - c } else { 48 - c };
    d + 1 <= r
}

fn check_prefilled(table: &TTable, k: usize) {
    let rows = 16 - k;
    let s = &table.cells;
    for r in 0..19 {
        for c in 0..49 {
            if !is_fixed(rows, r, c) {
                assert_eq!(s[r][c], 0, "cell {} {}", r, c);
            }
        }
    }
    assert_eq!(s[1][0], 0);
    for r in 1..=rows {
        for c in 1..=16 {
            assert_eq!(s[r][c], SBOX[s[r][c - 1] as usize] ^ s[r - 1][c]);
        }
        assert_eq!(s[r][16], s[r][32]);
        assert_eq!(s[r][32], s[r][48]);
        assert_eq!(s[r + 1][0], s[r][48].wrapping_add((r - 1) as u8));
        for d in 1..r {
            assert_eq!(s[r][32 - d], SBOXI[(s[r][33 - d] ^ s[r - 1][33 - d]) as usize]);
            assert_eq!(s[r][48 - d], s[r][32 - d]);
            // The round holds where the inverse table was used.
            assert_eq!(s[r][33 - d], SBOX[s[r][32 - d] as usize] ^ s[r - 1][33 - d]);
        }
    }
}

#[test]
fn sbox_tables_are_inverse_permutations() {
    for x in 0..256 {
        assert_eq!(SBOXI[SBOX[x] as usize] as usize, x);
        assert_eq!(SBOX[SBOXI[x] as usize] as usize, x);
    }
    assert_eq!(SBOX[0], 41);
    assert_eq!(SBOX[255], 20);
    assert_eq!(SBOXI[41], 0);
}

#[test]
fn prefilled_rows_end_in_equal_bytes_for_two_free_bytes() {
    let table = create_initial_state(2);
    for row in 1..=14 {
        assert_eq!(table.cells[row][16], table.cells[row][32]);
        assert_eq!(table.cells[row][16], table.cells[row][48]);
    }
}

#[test]
fn prefilled_table_has_the_known_first_row_and_carries() {
    let table = create_initial_state(2);
    let first: [u8; 17] =
        [0, 41, 66, 121, 252, 159, 15, 19, 243, 180, 133, 113, 184, 211, 139, 101, 165];
    assert_eq!(table.cells[1][..17], first);
    assert_eq!(table.cells[1][32], 165);
    assert_eq!(table.cells[1][48], 165);
    let carries: Vec<u8> = (0..19).map(|r| table.cells[r][0]).collect();
    assert_eq!(
        carries,
        vec![0, 0, 165, 224, 252, 145, 127, 65, 92, 238, 51, 91, 138, 161, 229, 119, 0, 0, 0]
    );
    assert_eq!(table.cells[14], ROW_14);
    assert_eq!(table.cells[0], [0u8; 49]);
}

#[test]
fn prefilled_table_follows_its_rules_for_every_number_of_free_bytes() {
    for k in 1..=14 {
        let table = create_initial_state(k);
        check_prefilled(&table, k);
    }
}

#[test]
fn prefilled_table_for_fourteen_free_bytes_has_two_rows() {
    let table = create_initial_state(14);
    let mut second = [0u8; 49];
    second[..17].copy_from_slice(&[
        165, 120, 52, 163, 223, 166, 160, 70, 244, 59, 11, 208, 192, 185, 84, 63, 223,
    ]);
    second[31] = 63;
    second[32] = 223;
    second[47] = 63;
    second[48] = 223;
    assert_eq!(table.cells[2], second);
    assert_eq!(table.cells[3][0], 224);
    assert_eq!(table.cells[3][1..], [0u8; 48]);
    assert_eq!(table.cells[1][31], 0);
}

#[test]
fn prefill_row_is_the_last_fixed_row_without_its_carry() {
    assert_eq!(prefill_row(14), ROW_14[1..].to_vec());
    for rows in 2..=15 {
        let table = create_initial_state(16 - rows);
        assert_eq!(prefill_row(rows), table.cells[rows][1..].to_vec());
    }
}

#[test]
fn copies_of_a_table_are_apart() {
    let table = create_initial_state(3);
    let mut copy = table;
    copy.cells[13][17] = 7;
    assert_eq!(table.cells[13][17], 0);
    assert_eq!(copy.cells[13][17], 7);
}

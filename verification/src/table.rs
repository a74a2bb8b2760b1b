//! The working table of the attack and its precomputed part.
//!
//! The table has 19 rows of 49 bytes. Column 0 holds the carry byte of each
//! row; columns 1 to 16, 17 to 32 and 33 to 48 are the three blocks of the
//! MD2 state. Row 0 is the state before the first round, row `r` the state
//! after round `r`.
//!
//! With `k` free bytes the first `rows = 16 - k` rows are fixed so that the
//! last bytes of the three blocks agree in each of them. That fixes the first
//! block of those rows, the carries, and a triangle at the right edge of the
//! second and third block.

use vstd::prelude::*;
use crate::rounds::{carry, carry_byte, ROW_LEN};
use crate::sbox::{sbox, sboxi, SBOX, SBOXI};

verus! {

/// The number of rows of the table.
pub const ROWS: usize = 19;

/// The number of columns of the table.
pub const COLS: usize = 49;

/// The last column of the first block.
pub const T1_END: usize = 16;

/// The last column of the second block.
pub const T2_END: usize = 32;

/// The last column of the third block.
pub const T3_END: usize = 48;

/// The smallest number of free bytes that a search can have.
pub const MIN_FREE: usize = 1;

/// The largest number of free bytes that a search can have.
pub const MAX_FREE: usize = 14;

/// The cell at row `r` and column `c <= 16` of any table whose rows up to
/// `r` are fixed: column 0 holds the carry, the others follow the round from
/// the all-zero row 0.
pub open spec fn t1(r: int, c: int) -> u8
    decreases r, c,
{
    if r <= 0 {
        0
    } else if c <= 0 {
        if r == 1 {
            0
        } else {
            carry(t1(r - 1, T1_END as int), r - 1)
        }
    } else {
        t1(r - 1, c) ^ sbox(t1(r, c - 1))
    }
}

/// The cell at row `r`, `d` columns left of the end of the second block (and
/// of the third): at the end it repeats the end of the first block, left of
/// it the round is solved for the byte to the left.
pub open spec fn tri(r: int, d: int) -> u8
    decreases d,
{
    if d <= 0 {
        t1(r, T1_END as int)
    } else {
        sboxi(tri(r, d - 1) ^ tri(r - 1, d - 1))
    }
}

/// How far column `c` lies left of the end of its block, for the second and
/// third block; -1 for the other columns.
pub open spec fn edge_distance(c: int) -> int {
    if T1_END < c <= T2_END {
        T2_END - c
    } else if T2_END < c <= T3_END {
        T3_END - c
    } else {
        -1
    }
}

/// Whether the cell at row `r` and column `c` is fixed when `rows` rows are:
/// the carries up to row `rows + 1`, and in rows 1 to `rows` the first block
/// and the triangles.
pub open spec fn is_fixed(rows: int, r: int, c: int) -> bool {
    ||| 1 <= r <= rows + 1 && c == 0
    ||| 1 <= r <= rows && 1 <= c <= T1_END
    ||| 1 <= r <= rows && 0 <= edge_distance(c) <= r - 1
}

/// The value of a fixed cell.
pub open spec fn fixed_cell(r: int, c: int) -> u8 {
    if c <= T1_END {
        t1(r, c)
    } else {
        tri(r, edge_distance(c))
    }
}

/// The cell at row `r` and column `c` of the precomputed table with `rows`
/// fixed rows: the fixed cells, and zero everywhere else.
pub open spec fn prefilled_cell(rows: int, r: int, c: int) -> u8 {
    if is_fixed(rows, r, c) {
        fixed_cell(r, c)
    } else {
        0
    }
}

/// Row `rows` of the precomputed table with `rows` fixed rows, without its
/// carry byte.
pub open spec fn prefilled_row(rows: int) -> Seq<u8> {
    Seq::new(ROW_LEN as nat, |i: int| prefilled_cell(rows, rows, i + 1))
}

/// The table after the forward fill of `n` rows, with the columns below
/// `i` of row `n + 1` filled too.
spec fn forward_cell(n: int, i: int, r: int, c: int) -> u8 {
    if 1 <= r <= n {
        if c <= T1_END {
            t1(r, c)
        } else if c == T2_END || c == T3_END {
            t1(r, T1_END as int)
        } else {
            0
        }
    } else if r == n + 1 {
        if c == 0 || c < i {
            t1(r, c)
        } else {
            0
        }
    } else {
        0
    }
}

/// The table after the forward fill of `rows` rows and `col` columns of the
/// triangles, with the rows below `cursor` of the next column filled too.
spec fn triangle_cell(rows: int, col: int, cursor: int, r: int, c: int) -> u8 {
    let d = edge_distance(c);
    if 1 <= r <= rows && 1 <= d <= r - 1 && (d <= col || (d == col + 1 && r > cursor)) {
        tri(r, d)
    } else {
        forward_cell(rows, 0, r, c)
    }
}

/// The working table: `cells[row][col]`.
#[derive(Clone, Copy)]
pub struct TTable {
    pub cells: [[u8; COLS]; ROWS],
}

impl TTable {
    /// The byte at row `r` and column `c`.
    pub open spec fn cell(&self, r: int, c: int) -> u8 {
        self.cells[r][c]
    }

    /// Row `r` without its carry byte: columns 1 to 48.
    pub open spec fn row(&self, r: int) -> Seq<u8> {
        Seq::new(ROW_LEN as nat, |i: int| self.cell(r, i + 1))
    }

    /// The table is exactly the precomputed one for `k` free bytes.
    pub open spec fn is_initial(&self, k: int) -> bool {
        forall|r: int, c: int|
            0 <= r < ROWS && 0 <= c < COLS ==> #[trigger] self.cell(r, c) == prefilled_cell(
                16 - k,
                r,
                c,
            )
    }

    /// The table holds the precomputed values in every cell that is fixed
    /// for `k` free bytes. The other cells may hold anything: a search
    /// writes them again before it reads them.
    pub open spec fn is_prefilled(&self, k: int) -> bool {
        forall|r: int, c: int|
            0 <= r < ROWS && 0 <= c < COLS && is_fixed(16 - k, r, c) ==> #[trigger] self.cell(r, c)
                == fixed_cell(r, c)
    }

    /// In each of the rows 1 to `rows` the three blocks end in the same byte.
    pub open spec fn ends_agree(&self, rows: int) -> bool {
        forall|r: int|
            1 <= r <= rows ==> #[trigger] self.cell(r, T1_END as int) == self.cell(r, T2_END as int)
                && self.cell(r, T2_END as int) == self.cell(r, T3_END as int)
    }

    /// The precomputed cells meet the equality constraint: in each of the
    /// rows 1 to `16 - k` the three blocks end in the same byte.
    pub proof fn lemma_ends_agree(&self, k: int)
        requires
            MIN_FREE <= k <= MAX_FREE,
            self.is_prefilled(k),
        ensures
            self.ends_agree(16 - k),
    {
        assert forall|r: int| 1 <= r <= 16 - k implies #[trigger] self.cell(r, T1_END as int)
            == self.cell(r, T2_END as int) && self.cell(r, T2_END as int) == self.cell(
            r,
            T3_END as int,
        ) by {
            assert(self.cell(r, T2_END as int) == fixed_cell(r, T2_END as int));
            assert(self.cell(r, T3_END as int) == fixed_cell(r, T3_END as int));
        }
    }
}

/// Builds the precomputed table for `k` free bytes: forward through the
/// first block of rows 1 to `16 - k`, with the ends of the other two blocks
/// set equal to its end, then backward through the triangles.
pub fn create_initial_state(k: usize) -> (table: TTable)
    requires
        MIN_FREE <= k <= MAX_FREE,
    ensures
        table.is_initial(k as int),
        table.is_prefilled(k as int),
        table.ends_agree(16 - k),
{
    let rows: usize = 16 - k;
    let mut cells: [[u8; COLS]; ROWS] = [[0u8; COLS]; ROWS];
    assert forall|r: int, c: int| 0 <= r < ROWS && 0 <= c < COLS implies #[trigger] cells[r][c]
        == forward_cell(0, 0, r, c) by {}
    let mut row: usize = 1;
    while row <= rows
        invariant
            1 <= row <= rows + 1,
            rows <= 15,
            forall|r: int, c: int|
                #![trigger cells[r][c]]
                0 <= r < ROWS && 0 <= c < COLS ==> cells[r][c] == forward_cell(row - 1, 0, r, c),
        decreases rows + 1 - row,
    {
        let mut i: usize = 1;
        while i <= T1_END
            invariant
                1 <= row <= rows,
                rows <= 15,
                1 <= i <= T1_END + 1,
                forall|r: int, c: int|
                    #![trigger cells[r][c]]
                    0 <= r < ROWS && 0 <= c < COLS ==> cells[r][c] == forward_cell(
                        row - 1,
                        i as int,
                        r,
                        c,
                    ),
            decreases T1_END + 1 - i,
        {
            let ghost before = cells;
            let byte: u8 = cells[row - 1][i] ^ SBOX[cells[row][i - 1] as usize];
            cells[row][i] = byte;
            assert forall|r: int, c: int| 0 <= r < ROWS && 0 <= c < COLS implies #[trigger] cells[r][c]
                == forward_cell(row - 1, i + 1, r, c) by {
                if r == row && c == i {
                    assert(before[row - 1][i as int] == t1(row - 1, i as int));
                    assert(before[row as int][i - 1] == t1(row as int, i - 1));
                } else {
                    assert(cells[r][c] == before[r][c]);
                }
            }
            i += 1;
        }
        let end: u8 = cells[row][T1_END];
        cells[row][T2_END] = end;
        cells[row][T3_END] = end;
        let t: u8 = carry_byte(end, row);
        cells[row + 1][0] = t;
        row += 1;
    }
    assert forall|r: int, c: int| 0 <= r < ROWS && 0 <= c < COLS implies #[trigger] cells[r][c]
        == triangle_cell(rows as int, 0, rows as int, r, c) by {}
    let mut col: usize = 0;
    while col < rows
        invariant
            col <= rows <= 15,
            forall|r: int, c: int|
                #![trigger cells[r][c]]
                0 <= r < ROWS && 0 <= c < COLS ==> cells[r][c] == triangle_cell(
                    rows as int,
                    col as int,
                    rows as int,
                    r,
                    c,
                ),
        decreases rows - col,
    {
        let mut row: usize = rows;
        while row >= 2 + col
            invariant
                col < rows <= 15,
                col + 1 <= row <= rows,
                forall|r: int, c: int|
                    #![trigger cells[r][c]]
                    0 <= r < ROWS && 0 <= c < COLS ==> cells[r][c] == triangle_cell(
                        rows as int,
                        col as int,
                        row as int,
                        r,
                        c,
                    ),
            decreases row,
        {
            let ghost before = cells;
            let xor2: u8 = cells[row][T2_END - col] ^ cells[row - 1][T2_END - col];
            cells[row][T2_END - col - 1] = SBOXI[xor2 as usize];
            let xor3: u8 = cells[row][T3_END - col] ^ cells[row - 1][T3_END - col];
            cells[row][T3_END - col - 1] = SBOXI[xor3 as usize];
            assert forall|r: int, c: int| 0 <= r < ROWS && 0 <= c < COLS implies #[trigger] cells[r][c]
                == triangle_cell(rows as int, col as int, row - 1, r, c) by {
                if r == row && (c == T2_END - col - 1 || c == T3_END - col - 1) {
                    assert(before[row as int][T2_END - col] == tri(row as int, col as int));
                    assert(before[row - 1][T2_END - col] == tri(row - 1, col as int));
                    assert(before[row as int][T3_END - col] == tri(row as int, col as int));
                    assert(before[row - 1][T3_END - col] == tri(row - 1, col as int));
                } else {
                    assert(cells[r][c] == before[r][c]);
                }
            }
            row -= 1;
        }
        col += 1;
    }
    let table = TTable { cells };
    assert forall|r: int, c: int| 0 <= r < ROWS && 0 <= c < COLS implies #[trigger] table.cell(r, c)
        == prefilled_cell(rows as int, r, c) by {}
    proof {
        table.lemma_ends_agree(k as int);
    }
    table
}

/// Builds the precomputed table with `num_rows` fixed rows and returns that
/// row without its carry byte: the 48 bytes from which a search of
/// `16 - num_rows` free bytes starts.
pub fn prefill_row(num_rows: usize) -> (row: Vec<u8>)
    requires
        16 - MAX_FREE <= num_rows <= 16 - MIN_FREE,
    ensures
        row@ == prefilled_row(num_rows as int),
{
    let table = create_initial_state(16 - num_rows);
    let mut row: Vec<u8> = Vec::new();
    let mut c: usize = 1;
    while c < COLS
        invariant
            1 <= c <= COLS,
            num_rows < ROWS,
            row@.len() == c - 1,
            forall|i: int| 0 <= i < c - 1 ==> row@[i] == table.cell(num_rows as int, i + 1),
        decreases COLS - c,
    {
        row.push(table.cells[num_rows][c]);
        c += 1;
    }
    assert(row@ =~= prefilled_row(num_rows as int));
    row
}

} // verus!

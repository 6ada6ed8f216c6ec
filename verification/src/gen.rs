//! Grid population and rendering: filling a fresh grid with random cell
//! weights, and laying a grid row out as the textual hex format.

use vstd::prelude::*;

verus! {

/// Relies on rand::random: draws one byte from the thread-local generator.
/// Nothing is promised of the value; every caller must be correct for every
/// possible byte.
#[verifier::external_body]
fn random_byte() -> u8 {
    rand::random::<u8>()
}

/// Build a fresh `h` x `w` grid of random cell weights, with weight 0 at
/// the start (top-left) cell and weight 255 at the end (bottom-right) cell.
/// In the degenerate one-cell grid the start rule wins and the single cell
/// has weight 0.
pub fn generate_grid(w: usize, h: usize) -> (r: Vec<Vec<u8>>)
    requires
        w >= 1,
        h >= 1,
    ensures
        r@.len() == h,
        forall|i: int| 0 <= i < h ==> (#[trigger] r@[i])@.len() == w,
        r@[0]@[0] == 0,
        !(h == 1 && w == 1) ==> r@[h - 1]@[w - 1] == 255,
{
    let mut grid: Vec<Vec<u8>> = Vec::new();
    let mut row: usize = 0;
    while row < h
        invariant
            w >= 1,
            h >= 1,
            row <= h,
            grid@.len() == row,
            forall|i: int| 0 <= i < row ==> (#[trigger] grid@[i])@.len() == w,
            row >= 1 ==> grid@[0]@[0] == 0,
            row == h && !(h == 1 && w == 1) ==> grid@[h - 1]@[w - 1] == 255,
            forall|i: int| 0 <= i < row && i == h - 1 && !(h == 1 && w == 1) ==> (
            #[trigger] grid@[i])@[w - 1] == 255,
        decreases h - row,
    {
        let mut cells: Vec<u8> = Vec::new();
        let mut col: usize = 0;
        while col < w
            invariant
                w >= 1,
                h >= 1,
                row < h,
                col <= w,
                cells@.len() == col,
                row == 0 && col >= 1 ==> cells@[0] == 0,
                forall|j: int| 0 <= j < col && row == h - 1 && j == w - 1 && !(h == 1 && w
                    == 1) ==> #[trigger] cells@[j] == 255,
            decreases w - col,
        {
            let v: u8 = if row == 0 && col == 0 {
                0
            } else if row == h - 1 && col == w - 1 {
                255
            } else {
                random_byte()
            };
            cells.push(v);
            col = col + 1;
        }
        grid.push(cells);
        row = row + 1;
    }
    grid
}

/// The upper-case ASCII hex digit for a value below 16.
pub open spec fn hex_upper(n: int) -> u8 {
    if n < 10 {
        (48 + n) as u8
    } else {
        (55 + n) as u8
    }
}

/// Render one grid row in the persisted hex map format: each byte as two
/// upper-case hex digits, cells separated by single spaces.
pub fn row_to_hex_line(row: &Vec<u8>) -> (r: Vec<u8>)
    ensures
        row@.len() == 0 ==> r@.len() == 0,
        row@.len() >= 1 ==> r@.len() == 3 * row@.len() - 1,
        forall|k: int| 0 <= k < row@.len() ==> #[trigger] r@[3 * k] == hex_upper(row@[k] as int / 16)
            && r@[3 * k + 1] == hex_upper(row@[k] as int % 16),
        forall|k: int| 0 <= k < row@.len() - 1 ==> #[trigger] r@[3 * k + 2] == 32u8,
{
    let mut r: Vec<u8> = Vec::new();
    let mut k: usize = 0;
    while k < row.len()
        invariant
            k <= row@.len(),
            k == 0 ==> r@.len() == 0,
            k >= 1 ==> r@.len() == 3 * k - 1,
            forall|j: int| 0 <= j < k ==> #[trigger] r@[3 * j] == hex_upper(row@[j] as int / 16)
                && r@[3 * j + 1] == hex_upper(row@[j] as int % 16),
            forall|j: int| 0 <= j < k - 1 ==> #[trigger] r@[3 * j + 2] == 32u8,
        decreases row@.len() - k,
    {
        if k > 0 {
            r.push(32);
        }
        let b = row[k];
        let hi = b / 16;
        let lo = b % 16;
        r.push(if hi < 10 {
            48 + hi
        } else {
            55 + hi
        });
        r.push(if lo < 10 {
            48 + lo
        } else {
            55 + lo
        });
        k = k + 1;
    }
    r
}

} // verus!

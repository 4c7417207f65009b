//! Coordinate-pair descriptions of the classic groups.

use vstd::prelude::*;

verus! {

/// The nine rows as (row, column) coordinate groups.
pub fn row_groups() -> (ret: Vec<Vec<(usize, usize)>>)
    ensures
        ret@.len() == 9,
        forall|r: int| 0 <= r < 9 ==> #[trigger] ret@[r]@.len() == 9,
        forall|r: int, c: int| 0 <= r < 9 && 0 <= c < 9 ==> #[trigger] ret@[r]@[c] == (
        r as usize,
        c as usize,
        ),
{
    let mut ret: Vec<Vec<(usize, usize)>> = Vec::new();
    let mut row: usize = 0;
    while row < 9
        invariant
            row <= 9,
            ret@.len() == row,
            forall|r: int| 0 <= r < row ==> #[trigger] ret@[r]@.len() == 9,
            forall|r: int, c: int| 0 <= r < row && 0 <= c < 9 ==> #[trigger] ret@[r]@[c] == (
            r as usize,
            c as usize,
            ),
        decreases 9 - row,
    {
        let mut group: Vec<(usize, usize)> = Vec::new();
        let mut column: usize = 0;
        while column < 9
            invariant
                column <= 9,
                group@.len() == column,
                forall|c: int| 0 <= c < column ==> #[trigger] group@[c] == (row, c as usize),
            decreases 9 - column,
        {
            group.push((row, column));
            column = column + 1;
        }
        ret.push(group);
        row = row + 1;
    }
    ret
}

/// The nine columns as (row, column) coordinate groups.
pub fn column_groups() -> (ret: Vec<Vec<(usize, usize)>>)
    ensures
        ret@.len() == 9,
        forall|c: int| 0 <= c < 9 ==> #[trigger] ret@[c]@.len() == 9,
        forall|c: int, r: int| 0 <= c < 9 && 0 <= r < 9 ==> #[trigger] ret@[c]@[r] == (
        r as usize,
        c as usize,
        ),
{
    let mut ret: Vec<Vec<(usize, usize)>> = Vec::new();
    let mut column: usize = 0;
    while column < 9
        invariant
            column <= 9,
            ret@.len() == column,
            forall|c: int| 0 <= c < column ==> #[trigger] ret@[c]@.len() == 9,
            forall|c: int, r: int| 0 <= c < column && 0 <= r < 9 ==> #[trigger] ret@[c]@[r] == (
            r as usize,
            c as usize,
            ),
        decreases 9 - column,
    {
        let mut group: Vec<(usize, usize)> = Vec::new();
        let mut row: usize = 0;
        while row < 9
            invariant
                row <= 9,
                group@.len() == row,
                forall|r: int| 0 <= r < row ==> #[trigger] group@[r] == (r as usize, column),
            decreases 9 - row,
        {
            group.push((row, column));
            row = row + 1;
        }
        ret.push(group);
        column = column + 1;
    }
    ret
}

/// The nine boxes as coordinate groups: box `b` holds the nine distinct
/// cells of the 3x3 block with corner `(3 (b / 3), 3 (b % 3))`, row-major.
pub fn box_groups() -> (ret: Vec<Vec<(usize, usize)>>)
    ensures
        ret@.len() == 9,
        forall|b: int| 0 <= b < 9 ==> #[trigger] ret@[b]@.len() == 9,
        forall|b: int, c: int| 0 <= b < 9 && 0 <= c < 9 ==> #[trigger] ret@[b]@[c] == (
        ((b / 3) * 3 + c / 3) as usize,
        ((b % 3) * 3 + c % 3) as usize,
        ),
{
    let mut ret: Vec<Vec<(usize, usize)>> = Vec::new();
    let mut sudoku_box: usize = 0;
    while sudoku_box < 9
        invariant
            sudoku_box <= 9,
            ret@.len() == sudoku_box,
            forall|b: int| 0 <= b < sudoku_box ==> #[trigger] ret@[b]@.len() == 9,
            forall|b: int, c: int|
                0 <= b < sudoku_box && 0 <= c < 9 ==> #[trigger] ret@[b]@[c] == (
                ((b / 3) * 3 + c / 3) as usize,
                ((b % 3) * 3 + c % 3) as usize,
                ),
        decreases 9 - sudoku_box,
    {
        let start_row = (sudoku_box / 3) * 3;
        let start_column = (sudoku_box % 3) * 3;
        let mut group: Vec<(usize, usize)> = Vec::new();
        let mut cell: usize = 0;
        while cell < 9
            invariant
                cell <= 9,
                sudoku_box < 9,
                start_row == (sudoku_box / 3) * 3,
                start_column == (sudoku_box % 3) * 3,
                group@.len() == cell,
                forall|c: int| 0 <= c < cell ==> #[trigger] group@[c] == (
                ((sudoku_box / 3) * 3 + c / 3) as usize,
                ((sudoku_box % 3) * 3 + c % 3) as usize,
                ),
            decreases 9 - cell,
        {
            group.push((start_row + cell / 3, start_column + cell % 3));
            cell = cell + 1;
        }
        ret.push(group);
        sudoku_box = sudoku_box + 1;
    }
    ret
}

} // verus!

use vstd::prelude::*;
use grid::Grid;
use crate::cell::Character;
use crate::board::{board_cells, board_width, is_rect, board_rows, board_cols, board_get, board_set};

verus! {

/// The board cell `(x, y)` lies under the pattern `w` (of width `ww`) placed with
/// its top-left corner at `(r, c)`, and the pattern has a letter there.
pub open spec fn covered(w: Seq<Seq<Character>>, ww: nat, r: int, c: int, x: int, y: int) -> bool {
    &&& r <= x < r + w.len()
    &&& c <= y < c + ww
    &&& !w[x - r][y - c].spec_is_empty()
}

/// Every letter of the pattern that lands on the board lands on an empty cell
/// or on the same letter.
pub open spec fn can_merge(b: Seq<Seq<Character>>, bw: nat, w: Seq<Seq<Character>>, ww: nat, r: int, c: int) -> bool {
    forall|x: int, y: int|
        0 <= x < b.len() && 0 <= y < bw && #[trigger] covered(w, ww, r, c, x, y) ==> b[x][y].accepts(
            w[x - r][y - c],
        )
}

/// The board `b` after the pattern `w` is merged into it at `(r, c)`: each
/// covered cell is merged with the pattern's cell, every other cell is kept,
/// and letters that fall off the board are dropped.
pub open spec fn merged_board(b: Seq<Seq<Character>>, w: Seq<Seq<Character>>, ww: nat, r: int, c: int) -> Seq<
    Seq<Character>,
> {
    Seq::new(
        b.len(),
        |x: int|
            Seq::new(
                b[x].len(),
                |y: int|
                    if covered(w, ww, r, c, x, y) {
                        b[x][y].merged(w[x - r][y - c])
                    } else {
                        b[x][y]
                    },
            ),
    )
}

/// Merges the pattern `word` into `grid` with its top-left corner at
/// `(row, column)`: each letter of the pattern that lands on the board is merged
/// into its cell (see `Character::combine_with`); the rest of the board is kept.
pub fn combine(grid: &mut Grid<Character>, word: &Grid<Character>, row: usize, column: usize)
    requires
        can_merge(
            board_cells(*old(grid)),
            board_width(*old(grid)),
            board_cells(*word),
            board_width(*word),
            row as int,
            column as int,
        ),
    ensures
        board_cells(*final(grid)) == merged_board(
            board_cells(*old(grid)),
            board_cells(*word),
            board_width(*word),
            row as int,
            column as int,
        ),
        board_width(*final(grid)) == board_width(*old(grid)),
{
    let ghost b = board_cells(*grid);
    let ghost w = board_cells(*word);
    let br = board_rows(grid);
    let bw = board_cols(grid);
    let wr = board_rows(word);
    let ww = board_cols(word);
    let ghost target = merged_board(b, w, ww as nat, row as int, column as int);
    if row < br && column < bw {
        let n_rows: usize = if wr < br - row { wr } else { br - row };
        let n_cols: usize = if ww < bw - column { ww } else { bw - column };
        let mut i: usize = 0;
        while i < n_rows
            invariant
                b == board_cells(*old(grid)),
                w == board_cells(*word),
                target == merged_board(b, w, ww as nat, row as int, column as int),
                br == b.len(),
                bw == board_width(*old(grid)),
                wr == w.len(),
                ww == board_width(*word),
                is_rect(b, bw as nat),
                is_rect(w, ww as nat),
                can_merge(b, bw as nat, w, ww as nat, row as int, column as int),
                row < br,
                column < bw,
                n_rows <= wr,
                n_rows <= br - row,
                n_cols <= ww,
                n_cols <= bw - column,
                n_cols == ww || n_cols == bw - column,
                n_rows == wr || n_rows == br - row,
                i <= n_rows,
                board_cells(*grid).len() == br,
                board_width(*grid) == bw,
                is_rect(board_cells(*grid), bw as nat),
                forall|x: int, y: int|
                    0 <= x < br && 0 <= y < bw ==> #[trigger] board_cells(*grid)[x][y] == (if x < row + i {
                        target[x][y]
                    } else {
                        b[x][y]
                    }),
            decreases n_rows - i,
        {
            let mut j: usize = 0;
            while j < n_cols
                invariant
                    b == board_cells(*old(grid)),
                    w == board_cells(*word),
                    target == merged_board(b, w, ww as nat, row as int, column as int),
                    br == b.len(),
                    bw == board_width(*old(grid)),
                    wr == w.len(),
                    ww == board_width(*word),
                    is_rect(b, bw as nat),
                    is_rect(w, ww as nat),
                    can_merge(b, bw as nat, w, ww as nat, row as int, column as int),
                    row < br,
                    column < bw,
                    n_rows <= wr,
                    n_rows <= br - row,
                    n_cols <= ww,
                    n_cols <= bw - column,
                    n_cols == ww || n_cols == bw - column,
                    n_rows == wr || n_rows == br - row,
                    i < n_rows,
                    j <= n_cols,
                    board_cells(*grid).len() == br,
                    board_width(*grid) == bw,
                    is_rect(board_cells(*grid), bw as nat),
                    forall|x: int, y: int|
                        0 <= x < br && 0 <= y < bw ==> #[trigger] board_cells(*grid)[x][y] == (if x < row + i
                            || (x == row + i && y < column + j) {
                            target[x][y]
                        } else {
                            b[x][y]
                        }),
                decreases n_cols - j,
            {
                let x = row + i;
                let y = column + j;
                let letter = board_get(word, i, j);
                if !letter.is_empty() {
                    let mut cell = board_get(grid, x, y);
                    proof {
                        assert(covered(w, ww as nat, row as int, column as int, x as int, y as int));
                    }
                    cell.combine_with(&letter);
                    let ghost before = board_cells(*grid);
                    board_set(grid, x, y, cell);
                    proof {
                        assert forall|xx: int, yy: int| 0 <= xx < br && 0 <= yy < bw && !(xx == x && yy == y) implies
                            #[trigger] board_cells(*grid)[xx][yy] == before[xx][yy] by {
                        }
                    }
                } else {
                    proof {
                        assert(!covered(w, ww as nat, row as int, column as int, x as int, y as int));
                    }
                }
                j = j + 1;
            }
            proof {
                assert forall|x: int, y: int|
                    0 <= x < br && 0 <= y < bw && x == row + i && y >= column + n_cols implies #[trigger] target[x][y]
                        == b[x][y] by {
                    assert(!covered(w, ww as nat, row as int, column as int, x, y));
                }
            }
            i = i + 1;
        }
        proof {
            assert forall|x: int, y: int| 0 <= x < br && 0 <= y < bw && x >= row + n_rows implies #[trigger] target[x][y]
                == b[x][y] by {
                assert(!covered(w, ww as nat, row as int, column as int, x, y));
            }
        }
    } else {
        proof {
            assert forall|x: int, y: int| 0 <= x < br && 0 <= y < bw implies #[trigger] target[x][y] == b[x][y] by {
                assert(!covered(w, ww as nat, row as int, column as int, x, y));
            }
        }
    }
    proof {
        assert(board_cells(*grid) =~~= target);
    }
}

/// Merging never overwrites a letter: every cell that held a letter before
/// holds the same letter after.
pub proof fn lemma_merge_keeps_letters(b: Seq<Seq<Character>>, w: Seq<Seq<Character>>, ww: nat, r: int, c: int)
    ensures
        forall|x: int, y: int|
            0 <= x < b.len() && 0 <= y < b[x].len() && !b[x][y].spec_is_empty() ==> (#[trigger] merged_board(
                b,
                w,
                ww,
                r,
                c,
            )[x][y]).letter == b[x][y].letter,
{
}

/// Merging the same pattern at the same position a second time is allowed and
/// changes nothing: no letter changes, and the direction sets, already joined
/// once, stay as they are.
pub proof fn lemma_merge_twice(b: Seq<Seq<Character>>, bw: nat, w: Seq<Seq<Character>>, ww: nat, r: int, c: int)
    requires
        is_rect(b, bw),
        can_merge(b, bw, w, ww, r, c),
    ensures
        can_merge(merged_board(b, w, ww, r, c), bw, w, ww, r, c),
        merged_board(merged_board(b, w, ww, r, c), w, ww, r, c) == merged_board(b, w, ww, r, c),
{
    let m = merged_board(b, w, ww, r, c);
    assert forall|x: int, y: int|
        0 <= x < m.len() && 0 <= y < bw && #[trigger] covered(w, ww, r, c, x, y) implies m[x][y].accepts(
            w[x - r][y - c],
        ) by {
        assert(b[x][y].accepts(w[x - r][y - c]));
    }
    let m2 = merged_board(m, w, ww, r, c);
    assert(m2.len() == m.len());
    assert forall|x: int| 0 <= x < m.len() implies #[trigger] m2[x] == m[x] by {
        assert(m2[x] =~= m[x]);
    }
    assert(m2 =~= m);
}

} // verus!

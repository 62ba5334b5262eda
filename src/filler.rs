use vstd::prelude::*;
use grid::Grid;
use rand::rngs::StdRng;
use rand::Rng;
use crate::cell::Character;
use crate::board::{board_cells, board_width, is_rect, board_rows, board_cols, board_get, board_set};

verus! {

/// Relies on `Rng::gen::<u8>` (rand): some byte; nothing more is known of it.
#[verifier::external_body]
fn random_byte(rng: &mut StdRng) -> (b: u8) {
    rng.gen::<u8>()
}

/// The decoy letter drawn as the byte `b`: one of `A`..`Z`.
pub open spec fn decoy(b: u8) -> char {
    ((b % 26) + 65) as char
}

/// The cell `cell` after filling: an empty cell takes the decoy letter of `b`,
/// keeping its (empty) class set; a letter stays.
pub open spec fn filled_cell(cell: Character, b: u8) -> Character {
    if cell.spec_is_empty() {
        Character { letter: decoy(b), directions: cell.directions }
    } else {
        cell
    }
}

/// Fills every empty cell of `grid` with the decoy letter of the byte drawn for
/// it (`draws` has one byte per cell, row by row); cells with a letter stay.
pub fn fill_empty_cells(grid: &mut Grid<Character>, draws: &Vec<Vec<u8>>)
    requires
        draws@.len() == board_cells(*old(grid)).len(),
        forall|i: int| 0 <= i < draws@.len() ==> (#[trigger] draws@[i])@.len() == board_width(*old(grid)),
    ensures
        board_width(*final(grid)) == board_width(*old(grid)),
        board_cells(*final(grid)).len() == board_cells(*old(grid)).len(),
        forall|r: int, c: int|
            0 <= r < board_cells(*old(grid)).len() && 0 <= c < board_width(*old(grid)) ==> #[trigger] board_cells(
                *final(grid),
            )[r][c] == filled_cell(board_cells(*old(grid))[r][c], draws@[r]@[c]),
{
    let ghost b = board_cells(*grid);
    let rows = board_rows(grid);
    let cols = board_cols(grid);
    let mut r: usize = 0;
    while r < rows
        invariant
            b == board_cells(*old(grid)),
            rows == b.len(),
            cols == board_width(*old(grid)),
            is_rect(b, cols as nat),
            draws@.len() == rows,
            forall|i: int| 0 <= i < draws@.len() ==> (#[trigger] draws@[i])@.len() == cols,
            r <= rows,
            board_cells(*grid).len() == rows,
            board_width(*grid) == cols,
            is_rect(board_cells(*grid), cols as nat),
            forall|x: int, y: int|
                0 <= x < rows && 0 <= y < cols ==> #[trigger] board_cells(*grid)[x][y] == (if x < r {
                    filled_cell(b[x][y], draws@[x]@[y])
                } else {
                    b[x][y]
                }),
        decreases rows - r,
    {
        let mut c: usize = 0;
        while c < cols
            invariant
                b == board_cells(*old(grid)),
                rows == b.len(),
                cols == board_width(*old(grid)),
                is_rect(b, cols as nat),
                draws@.len() == rows,
                forall|i: int| 0 <= i < draws@.len() ==> (#[trigger] draws@[i])@.len() == cols,
                r < rows,
                c <= cols,
                board_cells(*grid).len() == rows,
                board_width(*grid) == cols,
                is_rect(board_cells(*grid), cols as nat),
                forall|x: int, y: int|
                    0 <= x < rows && 0 <= y < cols ==> #[trigger] board_cells(*grid)[x][y] == (if x < r || (x == r
                        && y < c) {
                        filled_cell(b[x][y], draws@[x]@[y])
                    } else {
                        b[x][y]
                    }),
            decreases cols - c,
        {
            let cell = board_get(grid, r, c);
            let byte = draws[r][c];
            let next = fill_one(cell, byte);
            let ghost before = board_cells(*grid);
            board_set(grid, r, c, next);
            proof {
                assert forall|x: int, y: int| 0 <= x < rows && 0 <= y < cols && !(x == r && y == c) implies
                    #[trigger] board_cells(*grid)[x][y] == before[x][y] by {
                }
            }
            c = c + 1;
        }
        r = r + 1;
    }
}

fn fill_one(cell: Character, byte: u8) -> (r: Character)
    ensures
        r == filled_cell(cell, byte),
{
    if cell.is_empty() {
        let code: u8 = byte % 26 + 65;
        Character { letter: code as char, directions: cell.directions }
    } else {
        cell
    }
}

/// Fills every empty cell of `grid` with a random letter of `A`..`Z` drawn from
/// `rng`, leaving letters already placed as they are. The puzzle's words are
/// then hidden among decoys.
pub fn replace_dots_with_random_letters(grid: &mut Grid<Character>, rng: &mut StdRng)
    ensures
        board_width(*final(grid)) == board_width(*old(grid)),
        board_cells(*final(grid)).len() == board_cells(*old(grid)).len(),
        forall|r: int, c: int|
            0 <= r < board_cells(*old(grid)).len() && 0 <= c < board_width(*old(grid)) ==> ({
                let before = board_cells(*old(grid))[r][c];
                let after = #[trigger] board_cells(*final(grid))[r][c];
                &&& !before.spec_is_empty() ==> after == before
                &&& before.spec_is_empty() ==> 'A' <= after.letter <= 'Z' && after.directions == before.directions
            }),
{
    let ghost b = board_cells(*grid);
    let rows = board_rows(grid);
    let cols = board_cols(grid);
    let mut draws: Vec<Vec<u8>> = Vec::new();
    let mut r: usize = 0;
    while r < rows
        invariant
            b == board_cells(*grid),
            rows == b.len(),
            cols == board_width(*grid),
            is_rect(b, cols as nat),
            r <= rows,
            draws@.len() == r,
            forall|i: int| 0 <= i < draws@.len() ==> (#[trigger] draws@[i])@.len() == cols,
        decreases rows - r,
    {
        let mut line: Vec<u8> = Vec::new();
        let mut c: usize = 0;
        while c < cols
            invariant
                b == board_cells(*grid),
                rows == b.len(),
                cols == board_width(*grid),
                r < rows,
                c <= cols,
                line@.len() == c,
            decreases cols - c,
        {
            let cell = board_get(grid, r, c);
            let byte: u8 = if cell.is_empty() { random_byte(rng) } else { 0 };
            line.push(byte);
            c = c + 1;
        }
        draws.push(line);
        r = r + 1;
    }
    fill_empty_cells(grid, &draws);
    proof {
        assert forall|x: u8| 'A' <= #[trigger] decoy(x) <= 'Z' by {
            assert(65 <= x % 26 + 65 <= 90);
        }
    }
}

} // verus!

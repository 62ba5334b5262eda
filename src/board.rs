use vstd::prelude::*;
use grid::Grid;
use crate::cell::Character;

verus! {

#[verifier::external_type_specification]
#[verifier::external_body]
#[verifier::reject_recursive_types(T)]
pub struct ExGrid<T>(Grid<T>);

/// The cells of a letter grid, row by row (what `Grid::get(r, c)` reads).
pub uninterp spec fn board_cells(g: Grid<Character>) -> Seq<Seq<Character>>;

/// The column count that a letter grid records (`Grid::cols`).
pub uninterp spec fn board_width(g: Grid<Character>) -> nat;

/// The cells of a score grid, row by row.
pub uninterp spec fn score_cells(g: Grid<u64>) -> Seq<Seq<u64>>;

/// The column count that a score grid records.
pub uninterp spec fn score_width(g: Grid<u64>) -> nat;

/// The most cells a grid can hold: its cells (8 bytes each, for both letter and
/// score grids) sit in one allocation, which Rust caps at `isize::MAX` bytes.
pub open spec fn max_cells() -> nat {
    (isize::MAX as nat) / 8
}

/// Every row of `cells` is `width` long.
pub open spec fn is_rect<T>(cells: Seq<Seq<T>>, width: nat) -> bool {
    forall|i: int| 0 <= i < cells.len() ==> #[trigger] cells[i].len() == width
}

/// `rows` rows of `cols` copies of `v`; no rows at all where either count is zero,
/// which is how `Grid` represents an empty grid.
pub open spec fn filled<T>(rows: nat, cols: nat, v: T) -> Seq<Seq<T>> {
    if rows == 0 || cols == 0 {
        Seq::empty()
    } else {
        Seq::new(rows, |i: int| Seq::new(cols, |j: int| v))
    }
}

/// The width that `filled(rows, cols, _)` is recorded with.
pub open spec fn filled_width(rows: nat, cols: nat) -> nat {
    if rows == 0 || cols == 0 {
        0
    } else {
        cols
    }
}

/// `cells` with the cell at `(r, c)` replaced by `v`.
pub open spec fn set_cell<T>(cells: Seq<Seq<T>>, r: int, c: int, v: T) -> Seq<Seq<T>> {
    cells.update(r, cells[r].update(c, v))
}

/// Relies on `Grid::init`: `rows` × `cols` copies of `fill`, or a grid with no rows
/// and no columns where either count is zero. It panics where `rows * cols`
/// overflows or the cells would pass the allocation limit, which `requires`
/// excludes.
#[verifier::external_body]
pub(crate) fn board_init(rows: usize, cols: usize, fill: Character) -> (g: Grid<Character>)
    requires
        rows * cols <= max_cells(),
    ensures
        board_cells(g) == filled(rows as nat, cols as nat, fill),
        board_width(g) == filled_width(rows as nat, cols as nat),
{
    Grid::init(rows, cols, fill)
}

/// Relies on `Grid::rows`: the number of rows.
#[verifier::external_body]
pub(crate) fn board_rows(g: &Grid<Character>) -> (r: usize)
    ensures
        r == board_cells(*g).len(),
{
    g.rows()
}

/// Relies on `Grid::cols`: the number of columns, which every row has; a grid
/// keeps its `rows * cols` cells in one `Vec`, so the product is within
/// `max_cells`.
#[verifier::external_body]
pub(crate) fn board_cols(g: &Grid<Character>) -> (c: usize)
    ensures
        c == board_width(*g),
        is_rect(board_cells(*g), c as nat),
        board_cells(*g).len() * c <= max_cells(),
{
    g.cols()
}

/// Relies on `Grid`'s `Index<(usize, usize)>`: the cell at `(row, col)`.
/// It panics out of bounds, which `requires` excludes.
#[verifier::external_body]
pub(crate) fn board_get(g: &Grid<Character>, row: usize, col: usize) -> (v: Character)
    requires
        row < board_cells(*g).len(),
        col < board_width(*g),
    ensures
        v == board_cells(*g)[row as int][col as int],
{
    g[(row, col)]
}

/// Relies on `Grid`'s `IndexMut<(usize, usize)>`: writes the cell at `(row, col)`
/// and no other. It panics out of bounds, which `requires` excludes.
#[verifier::external_body]
pub(crate) fn board_set(g: &mut Grid<Character>, row: usize, col: usize, v: Character)
    requires
        row < board_cells(*old(g)).len(),
        col < board_width(*old(g)),
    ensures
        board_cells(*final(g)) == set_cell(board_cells(*old(g)), row as int, col as int, v),
        board_width(*final(g)) == board_width(*old(g)),
{
    g[(row, col)] = v;
}

/// Relies on `Grid`'s `Clone`: the same cells and width (the cells are `Copy`).
#[verifier::external_body]
pub(crate) fn board_clone(g: &Grid<Character>) -> (r: Grid<Character>)
    ensures
        board_cells(r) == board_cells(*g),
        board_width(r) == board_width(*g),
{
    g.clone()
}

/// Relies on `Grid::new`: `rows` × `cols` zeros (`u64::default`), or a grid with
/// no rows and no columns where either count is zero. It panics where
/// `rows * cols` overflows or the cells would pass the allocation limit, which
/// `requires` excludes.
#[verifier::external_body]
pub(crate) fn score_new(rows: usize, cols: usize) -> (g: Grid<u64>)
    requires
        rows * cols <= max_cells(),
    ensures
        score_cells(g) == filled(rows as nat, cols as nat, 0u64),
        score_width(g) == filled_width(rows as nat, cols as nat),
{
    Grid::new(rows, cols)
}

/// Relies on `Grid::rows`: the number of rows.
#[verifier::external_body]
pub(crate) fn score_rows(g: &Grid<u64>) -> (r: usize)
    ensures
        r == score_cells(*g).len(),
{
    g.rows()
}

/// Relies on `Grid::cols`: the number of columns, which every row has.
#[verifier::external_body]
pub(crate) fn score_cols(g: &Grid<u64>) -> (c: usize)
    ensures
        c == score_width(*g),
        is_rect(score_cells(*g), c as nat),
{
    g.cols()
}

/// Relies on `Grid`'s `Index<(usize, usize)>`: the score at `(row, col)`.
#[verifier::external_body]
pub(crate) fn score_get(g: &Grid<u64>, row: usize, col: usize) -> (v: u64)
    requires
        row < score_cells(*g).len(),
        col < score_width(*g),
    ensures
        v == score_cells(*g)[row as int][col as int],
{
    g[(row, col)]
}

/// Relies on `Grid`'s `IndexMut<(usize, usize)>`: writes one score and no other.
#[verifier::external_body]
pub(crate) fn score_set(g: &mut Grid<u64>, row: usize, col: usize, v: u64)
    requires
        row < score_cells(*old(g)).len(),
        col < score_width(*old(g)),
    ensures
        score_cells(*final(g)) == set_cell(score_cells(*old(g)), row as int, col as int, v),
        score_width(*final(g)) == score_width(*old(g)),
{
    g[(row, col)] = v;
}

} // verus!

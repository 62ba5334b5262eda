use vstd::prelude::*;
use grid::Grid;
use crate::cell::{Character, CharDirection, Direction, EMPTY};
use crate::board::{max_cells, board_cells, board_width, is_rect, filled, filled_width, board_init, board_set};
use crate::scoring::{letter_count, window_letters, row_letters};

verus! {

/// The alignment class a word written in direction `d` leaves in its cells;
/// a direction and its reverse share one.
pub open spec fn tag_of(d: Direction) -> CharDirection {
    match d {
        Direction::EE | Direction::WW => CharDirection { n: false, ne: false, e: true, se: false },
        Direction::NN | Direction::SS => CharDirection { n: true, ne: false, e: false, se: false },
        Direction::SE | Direction::NW => CharDirection { n: false, ne: false, e: false, se: true },
        Direction::NE | Direction::SW => CharDirection { n: false, ne: true, e: false, se: false },
    }
}

/// Rows of the pattern of a word of `len` letters in direction `d`.
pub open spec fn pattern_rows(d: Direction, len: nat) -> nat {
    match d {
        Direction::EE | Direction::WW => 1,
        _ => len,
    }
}

/// Columns of the pattern of a word of `len` letters in direction `d`.
pub open spec fn pattern_cols(d: Direction, len: nat) -> nat {
    match d {
        Direction::NN | Direction::SS => 1,
        _ => len,
    }
}

/// Which letter of a word of `len` letters in direction `d` lands on the cell
/// `(i, j)` of its pattern, or `-1` for a cell off the word's path. Walking the
/// pattern along `d` from the returned letter `0` reads the word.
pub open spec fn letter_index(d: Direction, len: int, i: int, j: int) -> int {
    let last = len - 1;
    let k = match d {
        Direction::EE => if i == 0 { j } else { -1 },
        Direction::WW => if i == 0 { last - j } else { -1 },
        Direction::SS => if j == 0 { i } else { -1 },
        Direction::NN => if j == 0 { last - i } else { -1 },
        Direction::SE => if i == j { i } else { -1 },
        Direction::NW => if i == j { last - i } else { -1 },
        Direction::SW => if i + j == last { i } else { -1 },
        Direction::NE => if i + j == last { j } else { -1 },
    };
    if 0 <= k < len { k } else { -1 }
}

/// The cell `(i, j)` of the pattern of `word` in direction `d`.
pub open spec fn pattern_cell(word: Seq<char>, d: Direction, i: int, j: int) -> Character {
    let k = letter_index(d, word.len() as int, i, j);
    if k >= 0 {
        Character { letter: word[k], directions: tag_of(d) }
    } else {
        Character::spec_empty()
    }
}

/// The pattern of `word` in direction `d`: a `1 × L`, `L × 1` or `L × L` grid
/// holding the word's letters along `d`, tagged with `d`'s class, and empty
/// elsewhere (no rows at all for an empty word).
pub open spec fn pattern_view(word: Seq<char>, d: Direction) -> Seq<Seq<Character>> {
    let rows = pattern_rows(d, word.len());
    let cols = pattern_cols(d, word.len());
    if rows == 0 || cols == 0 {
        Seq::empty()
    } else {
        Seq::new(rows, |i: int| Seq::new(cols, |j: int| pattern_cell(word, d, i, j)))
    }
}

/// The width that the pattern of `word` in direction `d` is recorded with.
pub open spec fn pattern_width(word: Seq<char>, d: Direction) -> nat {
    filled_width(pattern_rows(d, word.len()), pattern_cols(d, word.len()))
}

proof fn lemma_row_letters_bound(row: Seq<Character>, n: nat)
    ensures
        row_letters(row, n) <= n,
    decreases n,
{
    if n > 0 {
        lemma_row_letters_bound(row, (n - 1) as nat);
    }
}

proof fn lemma_row_letters_single(row: Seq<Character>, q: int, n: nat)
    requires
        forall|j: int| 0 <= j < n && j != q ==> (#[trigger] row[j]).spec_is_empty(),
    ensures
        row_letters(row, n) <= 1,
        row_letters(row, n) == 1 ==> 0 <= q < n,
    decreases n,
{
    if n > 0 {
        lemma_row_letters_single(row, q, (n - 1) as nat);
    }
}

proof fn lemma_window_letters_rows(w: Seq<Seq<Character>>, ww: nat, m: nat)
    requires
        m <= w.len(),
        forall|i: int| 0 <= i < m ==> row_letters(#[trigger] w[i], ww) <= 1,
    ensures
        window_letters(w, ww, m) <= m,
    decreases m,
{
    if m > 0 {
        lemma_window_letters_rows(w, ww, (m - 1) as nat);
        assert(row_letters(w[m - 1], ww) <= 1);
    }
}

/// A pattern holds at most as many letters as its word.
pub proof fn lemma_pattern_letters(word: Seq<char>, d: Direction)
    ensures
        letter_count(pattern_view(word, d), pattern_width(word, d)) <= word.len(),
{
    let w = pattern_view(word, d);
    let ww = pattern_width(word, d);
    let len = word.len() as int;
    if w.len() > 0 {
        match d {
            Direction::EE | Direction::WW => {
                lemma_row_letters_bound(w[0], ww);
                assert(window_letters(w, ww, 1) == window_letters(w, ww, 0) + row_letters(w[0], ww));
            },
            _ => {
                assert forall|i: int| 0 <= i < w.len() implies row_letters(#[trigger] w[i], ww) <= 1 by {
                    let q: int = match d {
                        Direction::SS | Direction::NN => 0,
                        Direction::SE | Direction::NW => i,
                        _ => len - 1 - i,
                    };
                    assert forall|j: int| 0 <= j < ww && j != q implies (#[trigger] w[i][j]).spec_is_empty() by {
                        assert(letter_index(d, len, i, j) == -1);
                    }
                    lemma_row_letters_single(w[i], q, ww);
                }
                lemma_window_letters_rows(w, ww, w.len());
            },
        }
    }
}

/// Where letter `k` of a word of `len` letters lands in its pattern for `d`.
fn letter_position(d: Direction, len: usize, k: usize) -> (p: (usize, usize))
    requires
        k < len,
    ensures
        p.0 < pattern_rows(d, len as nat),
        p.1 < pattern_cols(d, len as nat),
        letter_index(d, len as int, p.0 as int, p.1 as int) == k,
        forall|i: int, j: int|
            letter_index(d, len as int, i, j) == k ==> i == p.0 && j == p.1,
{
    let last = len - 1;
    match d {
        Direction::EE => (0, k),
        Direction::WW => (0, last - k),
        Direction::SS => (k, 0),
        Direction::NN => (last - k, 0),
        Direction::SE => (k, k),
        Direction::NW => (last - k, last - k),
        Direction::SW => (k, last - k),
        Direction::NE => (last - k, k),
    }
}

/// The class tag of direction `d`.
fn tag(d: Direction) -> (t: CharDirection)
    ensures
        t == tag_of(d),
{
    match d {
        Direction::EE | Direction::WW => CharDirection::east(),
        Direction::NN | Direction::SS => CharDirection::north(),
        Direction::SE | Direction::NW => CharDirection::south_east(),
        Direction::NE | Direction::SW => CharDirection::north_east(),
    }
}

/// Lays `word` out as a pattern for direction `dir`: its letters go along `dir`
/// from the corner where the word starts, so that the pattern read along `dir`
/// spells the word; the other cells stay empty.
pub fn to_grid(word: &String, dir: Direction) -> (g: Grid<Character>)
    requires
        pattern_rows(dir, word@.len()) * pattern_cols(dir, word@.len()) <= max_cells(),
    ensures
        board_cells(g) == pattern_view(word@, dir),
        board_width(g) == pattern_width(word@, dir),
{
    let len = word.as_str().unicode_len();
    let rows: usize = match dir {
        Direction::EE | Direction::WW => 1,
        _ => len,
    };
    let cols: usize = match dir {
        Direction::NN | Direction::SS => 1,
        _ => len,
    };
    let mut g = board_init(rows, cols, Character::default());
    let t = tag(dir);
    let ghost w = word@;
    let mut k: usize = 0;
    while k < len
        invariant
            len == w.len(),
            w == word@,
            t == tag_of(dir),
            rows == pattern_rows(dir, len as nat),
            cols == pattern_cols(dir, len as nat),
            len > 0 ==> rows > 0 && cols > 0,
            board_cells(g).len() == filled(rows as nat, cols as nat, 0u8).len(),
            board_width(g) == filled_width(rows as nat, cols as nat),
            is_rect(board_cells(g), board_width(g)),
            k <= len,
            forall|i: int, j: int|
                0 <= i < board_cells(g).len() && 0 <= j < board_width(g) ==> #[trigger] board_cells(g)[i][j]
                    == (if 0 <= letter_index(dir, len as int, i, j) < k {
                    pattern_cell(w, dir, i, j)
                } else {
                    Character::spec_empty()
                }),
        decreases len - k,
    {
        let p = letter_position(dir, len, k);
        let ch = word.as_str().get_char(k);
        let cell = Character { letter: ch, directions: t };
        let ghost before = board_cells(g);
        board_set(&mut g, p.0, p.1, cell);
        proof {
            assert forall|i: int, j: int|
                0 <= i < board_cells(g).len() && 0 <= j < board_width(g) implies #[trigger] board_cells(g)[i][j]
                    == (if 0 <= letter_index(dir, len as int, i, j) < k + 1 {
                    pattern_cell(w, dir, i, j)
                } else {
                    Character::spec_empty()
                }) by {
                if i == p.0 && j == p.1 {
                } else {
                    assert(board_cells(g)[i][j] == before[i][j]);
                }
            }
        }
        k = k + 1;
    }
    proof {
        assert forall|i: int, j: int|
            0 <= i < board_cells(g).len() && 0 <= j < board_width(g) implies #[trigger] board_cells(g)[i][j]
                == pattern_cell(w, dir, i, j) by {
        }
        assert(board_cells(g) =~~= pattern_view(w, dir));
    }
    g
}

/// A grid of plain letters turned into cells with the class set `direction`;
/// `EMPTY` stays an empty cell with no class.
pub fn ggd(char_grid: &Vec<Vec<char>>, direction: CharDirection) -> (g: Grid<Character>)
    requires
        forall|i: int| 0 <= i < char_grid@.len() ==> #[trigger] char_grid@[i]@.len() == char_grid@[0]@.len(),
        char_grid@.len() > 0 ==> char_grid@.len() * char_grid@[0]@.len() <= max_cells(),
    ensures
        char_grid@.len() == 0 ==> board_cells(g).len() == 0 && board_width(g) == 0,
        char_grid@.len() > 0 ==> board_cells(g).len() == filled(char_grid@.len(), char_grid@[0]@.len(), 0u8).len()
            && board_width(g) == filled_width(char_grid@.len(), char_grid@[0]@.len()),
        is_rect(board_cells(g), board_width(g)),
        forall|i: int, j: int|
            0 <= i < board_cells(g).len() && 0 <= j < board_width(g) ==> #[trigger] board_cells(g)[i][j]
                == (if char_grid@[i]@[j] == EMPTY {
                Character::spec_empty()
            } else {
                Character { letter: char_grid@[i]@[j], directions: direction }
            }),
{
    let rows = char_grid.len();
    let cols: usize = if rows == 0 { 0 } else { char_grid[0].len() };
    let mut out = board_init(rows, cols, Character::default());
    if rows == 0 || cols == 0 {
        return out;
    }
    let mut r: usize = 0;
    while r < rows
        invariant
            rows == char_grid@.len(),
            cols == char_grid@[0]@.len(),
            rows > 0 && cols > 0,
            forall|i: int| 0 <= i < char_grid@.len() ==> #[trigger] char_grid@[i]@.len() == char_grid@[0]@.len(),
            board_cells(out).len() == rows,
            board_width(out) == cols,
            is_rect(board_cells(out), board_width(out)),
            r <= rows,
            forall|i: int, j: int|
                0 <= i < rows && 0 <= j < cols ==> #[trigger] board_cells(out)[i][j] == (if i < r
                    && char_grid@[i]@[j] != EMPTY {
                    Character { letter: char_grid@[i]@[j], directions: direction }
                } else {
                    Character::spec_empty()
                }),
        decreases rows - r,
    {
        let mut c: usize = 0;
        while c < cols
            invariant
                rows == char_grid@.len(),
                cols == char_grid@[0]@.len(),
                rows > 0 && cols > 0,
                forall|i: int| 0 <= i < char_grid@.len() ==> #[trigger] char_grid@[i]@.len() == char_grid@[0]@.len(),
                board_cells(out).len() == rows,
                board_width(out) == cols,
                is_rect(board_cells(out), board_width(out)),
                r < rows,
                c <= cols,
                forall|i: int, j: int|
                    0 <= i < rows && 0 <= j < cols ==> #[trigger] board_cells(out)[i][j] == (if (i < r || (i == r
                        && j < c)) && char_grid@[i]@[j] != EMPTY {
                        Character { letter: char_grid@[i]@[j], directions: direction }
                    } else {
                        Character::spec_empty()
                    }),
            decreases cols - c,
        {
            let cell = cell_of(char_grid[r][c], direction);
            let ghost before = board_cells(out);
            board_set(&mut out, r, c, cell);
            proof {
                assert forall|i: int, j: int| 0 <= i < rows && 0 <= j < cols && !(i == r && j == c) implies
                    #[trigger] board_cells(out)[i][j] == before[i][j] by {
                }
            }
            c = c + 1;
        }
        r = r + 1;
    }
    out
}

/// The cell for the plain letter `ch` with the class set `direction`.
fn cell_of(ch: char, direction: CharDirection) -> (cell: Character)
    ensures
        cell == (if ch == EMPTY {
            Character::spec_empty()
        } else {
            Character { letter: ch, directions: direction }
        }),
{
    if ch == EMPTY {
        Character::default()
    } else {
        Character { letter: ch, directions: direction }
    }
}

/// `ggd` with no class.
pub fn gg(char_grid: &Vec<Vec<char>>) -> (g: Grid<Character>)
    requires
        forall|i: int| 0 <= i < char_grid@.len() ==> #[trigger] char_grid@[i]@.len() == char_grid@[0]@.len(),
        char_grid@.len() > 0 ==> char_grid@.len() * char_grid@[0]@.len() <= max_cells(),
    ensures
        char_grid@.len() == 0 ==> board_cells(g).len() == 0 && board_width(g) == 0,
        char_grid@.len() > 0 ==> board_cells(g).len() == filled(char_grid@.len(), char_grid@[0]@.len(), 0u8).len()
            && board_width(g) == filled_width(char_grid@.len(), char_grid@[0]@.len()),
        is_rect(board_cells(g), board_width(g)),
        forall|i: int, j: int|
            0 <= i < board_cells(g).len() && 0 <= j < board_width(g) ==> #[trigger] board_cells(g)[i][j]
                == (if char_grid@[i]@[j] == EMPTY {
                Character::spec_empty()
            } else {
                Character { letter: char_grid@[i]@[j], directions: CharDirection::spec_none() }
            }),
{
    ggd(char_grid, CharDirection::none())
}

} // verus!

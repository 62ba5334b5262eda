use vstd::prelude::*;
use grid::Grid;
use crate::cell::Character;
use crate::board::{max_cells, board_cells, board_width, score_cells, score_width, is_rect, board_rows, board_cols, board_get, score_new, score_set};

verus! {

/// `2` to the power `n`.
pub open spec fn two_pow(n: nat) -> nat
    decreases n,
{
    if n == 0 {
        1
    } else {
        2 * two_pow((n - 1) as nat)
    }
}

/// What one pattern cell `w` contributes when laid over the board cell `b`: an
/// empty pattern cell or an empty board cell leaves the score as it is, a genuine
/// crossing (same letter, no shared alignment class) doubles it, and anything
/// else makes the placement impossible.
pub open spec fn cell_factor(b: Character, w: Character) -> nat {
    if w.spec_is_empty() || b.spec_is_empty() {
        1
    } else if b.letter == w.letter && !b.directions.spec_intersects(w.directions) {
        2
    } else {
        0
    }
}

/// The pattern cell `w` is a letter that cannot go over the board cell `b`.
pub open spec fn is_conflict(b: Character, w: Character) -> bool {
    !w.spec_is_empty() && cell_factor(b, w) == 0
}

/// The pattern cell `w` is a letter that crosses an equal letter in `b`.
pub open spec fn is_crossing(b: Character, w: Character) -> bool {
    !w.spec_is_empty() && cell_factor(b, w) == 2
}

/// The product of the factors of the first `n` cells of a pattern row `wrow`,
/// laid over the board row `brow` from column `c`.
pub open spec fn row_score(brow: Seq<Character>, wrow: Seq<Character>, c: int, n: nat) -> nat
    decreases n,
{
    if n == 0 {
        1
    } else {
        row_score(brow, wrow, c, (n - 1) as nat) * cell_factor(brow[c + n - 1], wrow[n - 1])
    }
}

/// The product of the factors of the first `m` rows of the pattern `w` (of width
/// `ww`), laid over the board `b` with its top-left corner at `(r, c)`.
pub open spec fn window_score(
    b: Seq<Seq<Character>>,
    w: Seq<Seq<Character>>,
    ww: nat,
    r: int,
    c: int,
    m: nat,
) -> nat
    decreases m,
{
    if m == 0 {
        1
    } else {
        window_score(b, w, ww, r, c, (m - 1) as nat) * row_score(b[r + m - 1], w[m - 1], c, ww)
    }
}

/// The score of placing the pattern `w` (of width `ww`) with its top-left corner
/// at `(r, c)` of the board `b`: the product of every cell's factor.
pub open spec fn score_at(b: Seq<Seq<Character>>, w: Seq<Seq<Character>>, ww: nat, r: int, c: int) -> nat {
    window_score(b, w, ww, r, c, w.len())
}

/// How many of the first `n` cells of a pattern row hold a letter.
pub open spec fn row_letters(wrow: Seq<Character>, n: nat) -> nat
    decreases n,
{
    if n == 0 {
        0
    } else {
        row_letters(wrow, (n - 1) as nat) + if wrow[n - 1].spec_is_empty() { 0nat } else { 1nat }
    }
}

/// How many cells of the first `m` rows of a pattern hold a letter.
pub open spec fn window_letters(w: Seq<Seq<Character>>, ww: nat, m: nat) -> nat
    decreases m,
{
    if m == 0 {
        0
    } else {
        window_letters(w, ww, (m - 1) as nat) + row_letters(w[m - 1], ww)
    }
}

/// How many cells of a pattern hold a letter.
pub open spec fn letter_count(w: Seq<Seq<Character>>, ww: nat) -> nat {
    window_letters(w, ww, w.len())
}

/// The largest number of letters a pattern may have: a score is at most `2` to
/// the power of the letter count, and has to fit a `u64`.
pub const MAX_LETTERS: usize = 63;

/// The pattern of `wr` rows and `ww` columns fits on the board of `br` rows and
/// `bw` columns.
pub open spec fn pattern_fits(br: nat, bw: nat, wr: nat, ww: nat) -> bool {
    wr <= br && ww <= bw
}

/// The score grid of `pattern` over `board` (both as cells and width): one score
/// per top-left corner that keeps the pattern on the board, or no rows at all
/// when the pattern is larger than the board along either axis.
pub open spec fn is_score_grid(
    out: Seq<Seq<u64>>,
    out_width: nat,
    b: Seq<Seq<Character>>,
    bw: nat,
    w: Seq<Seq<Character>>,
    ww: nat,
) -> bool {
    if !pattern_fits(b.len(), bw, w.len(), ww) {
        out.len() == 0 && out_width == 0
    } else {
        &&& out.len() == b.len() - w.len() + 1
        &&& out_width == bw - ww + 1
        &&& is_rect(out, out_width)
        &&& forall|r: int, c: int|
            0 <= r < out.len() && 0 <= c < out_width ==> #[trigger] out[r][c] as nat == score_at(b, w, ww, r, c)
    }
}

/// How many of the first `n` cells of the pattern row `wrow` cross an equal
/// letter of the board row `brow` (laid from column `c`).
pub open spec fn row_crossings(brow: Seq<Character>, wrow: Seq<Character>, c: int, n: nat) -> nat
    decreases n,
{
    if n == 0 {
        0
    } else {
        row_crossings(brow, wrow, c, (n - 1) as nat) + if is_crossing(brow[c + n - 1], wrow[n - 1]) {
            1nat
        } else {
            0nat
        }
    }
}

/// How many cells of the first `m` rows of the pattern cross an equal letter of
/// the board.
pub open spec fn window_crossings(
    b: Seq<Seq<Character>>,
    w: Seq<Seq<Character>>,
    ww: nat,
    r: int,
    c: int,
    m: nat,
) -> nat
    decreases m,
{
    if m == 0 {
        0
    } else {
        window_crossings(b, w, ww, r, c, (m - 1) as nat) + row_crossings(b[r + m - 1], w[m - 1], c, ww)
    }
}

/// How many letters of the pattern placed at `(r, c)` cross an equal letter of
/// the board.
pub open spec fn crossings_at(b: Seq<Seq<Character>>, w: Seq<Seq<Character>>, ww: nat, r: int, c: int) -> nat {
    window_crossings(b, w, ww, r, c, w.len())
}

/// No letter of the pattern placed at `(r, c)` conflicts with the board.
pub open spec fn no_conflict(b: Seq<Seq<Character>>, w: Seq<Seq<Character>>, ww: nat, r: int, c: int) -> bool {
    forall|i: int, j: int|
        0 <= i < w.len() && 0 <= j < ww ==> !#[trigger] is_conflict(b[r + i][c + j], w[i][j])
}

proof fn lemma_row_score_zero(brow: Seq<Character>, wrow: Seq<Character>, c: int, j: int, n: nat)
    requires
        0 <= j < n,
        cell_factor(brow[c + j], wrow[j]) == 0,
    ensures
        row_score(brow, wrow, c, n) == 0,
    decreases n,
{
    if j < n - 1 {
        lemma_row_score_zero(brow, wrow, c, j, (n - 1) as nat);
    }
    let prev = row_score(brow, wrow, c, (n - 1) as nat);
    let f = cell_factor(brow[c + n - 1], wrow[n - 1]);
    assert(prev * f == 0) by (nonlinear_arith)
        requires prev == 0 || f == 0;
}

proof fn lemma_window_score_zero(
    b: Seq<Seq<Character>>,
    w: Seq<Seq<Character>>,
    ww: nat,
    r: int,
    c: int,
    i: int,
    m: nat,
)
    requires
        0 <= i < m,
        row_score(b[r + i], w[i], c, ww) == 0,
    ensures
        window_score(b, w, ww, r, c, m) == 0,
    decreases m,
{
    if i < m - 1 {
        lemma_window_score_zero(b, w, ww, r, c, i, (m - 1) as nat);
    }
    let prev = window_score(b, w, ww, r, c, (m - 1) as nat);
    let f = row_score(b[r + m - 1], w[m - 1], c, ww);
    assert(prev * f == 0) by (nonlinear_arith)
        requires prev == 0 || f == 0;
}

/// A placement with a pattern letter over a different board letter, or over the
/// same letter already written along the same alignment class, scores exactly 0.
pub proof fn lemma_conflict_scores_zero(
    b: Seq<Seq<Character>>,
    w: Seq<Seq<Character>>,
    ww: nat,
    r: int,
    c: int,
    i: int,
    j: int,
)
    requires
        0 <= i < w.len(),
        0 <= j < ww,
        is_conflict(b[r + i][c + j], w[i][j]),
    ensures
        score_at(b, w, ww, r, c) == 0,
{
    lemma_row_score_zero(b[r + i], w[i], c, j, ww);
    lemma_window_score_zero(b, w, ww, r, c, i, w.len());
}

/// A placement that scores above 0 has no conflicting letter.
pub proof fn lemma_positive_score_no_conflict(
    b: Seq<Seq<Character>>,
    w: Seq<Seq<Character>>,
    ww: nat,
    r: int,
    c: int,
)
    requires
        score_at(b, w, ww, r, c) > 0,
    ensures
        no_conflict(b, w, ww, r, c),
{
    assert forall|i: int, j: int| 0 <= i < w.len() && 0 <= j < ww implies !#[trigger] is_conflict(
        b[r + i][c + j],
        w[i][j],
    ) by {
        if is_conflict(b[r + i][c + j], w[i][j]) {
            lemma_conflict_scores_zero(b, w, ww, r, c, i, j);
        }
    }
}

proof fn lemma_two_pow_add(a: nat, b: nat)
    ensures
        two_pow(a) * two_pow(b) == two_pow(a + b),
    decreases b,
{
    let x = two_pow(a);
    if b > 0 {
        lemma_two_pow_add(a, (b - 1) as nat);
        let y = two_pow((b - 1) as nat);
        assert(x * (2 * y) == 2 * (x * y)) by (nonlinear_arith);
        assert(two_pow(a + b) == 2 * two_pow((a + b - 1) as nat));
        assert((a + b - 1) as nat == a + (b - 1) as nat);
    } else {
        assert(x * 1 == x);
    }
}

proof fn lemma_row_score_pow(brow: Seq<Character>, wrow: Seq<Character>, c: int, n: nat)
    requires
        forall|j: int| 0 <= j < n ==> !#[trigger] is_conflict(brow[c + j], wrow[j]),
    ensures
        row_score(brow, wrow, c, n) == two_pow(row_crossings(brow, wrow, c, n)),
    decreases n,
{
    if n > 0 {
        lemma_row_score_pow(brow, wrow, c, (n - 1) as nat);
        let k = row_crossings(brow, wrow, c, (n - 1) as nat);
        let f = cell_factor(brow[c + n - 1], wrow[n - 1]);
        assert(!is_conflict(brow[c + (n - 1)], wrow[n - 1]));
        if f == 2 {
            assert(two_pow(k) * 2 == two_pow(k + 1));
        } else {
            assert(two_pow(k) * 1 == two_pow(k));
        }
    }
}

proof fn lemma_window_score_pow(b: Seq<Seq<Character>>, w: Seq<Seq<Character>>, ww: nat, r: int, c: int, m: nat)
    requires
        m <= w.len(),
        no_conflict(b, w, ww, r, c),
    ensures
        window_score(b, w, ww, r, c, m) == two_pow(window_crossings(b, w, ww, r, c, m)),
    decreases m,
{
    if m > 0 {
        lemma_window_score_pow(b, w, ww, r, c, (m - 1) as nat);
        let i = m - 1;
        assert forall|j: int| 0 <= j < ww implies !#[trigger] is_conflict(b[r + i][c + j], w[i][j]) by {
        }
        lemma_row_score_pow(b[r + i], w[i], c, ww);
        lemma_two_pow_add(window_crossings(b, w, ww, r, c, (m - 1) as nat), row_crossings(b[r + i], w[i], c, ww));
    }
}

/// A placement where every pattern letter lands on an empty cell or crosses an
/// equal letter written along another class scores exactly `2` to the power of
/// the number of crossings.
pub proof fn lemma_crossing_reward(b: Seq<Seq<Character>>, w: Seq<Seq<Character>>, ww: nat, r: int, c: int)
    requires
        no_conflict(b, w, ww, r, c),
    ensures
        score_at(b, w, ww, r, c) == two_pow(crossings_at(b, w, ww, r, c)),
{
    lemma_window_score_pow(b, w, ww, r, c, w.len());
}

/// A pattern larger than the board along either axis has no placement: its
/// score grid has no rows.
pub proof fn lemma_oversized_pattern_no_placement(
    out: Seq<Seq<u64>>,
    out_width: nat,
    b: Seq<Seq<Character>>,
    bw: nat,
    w: Seq<Seq<Character>>,
    ww: nat,
)
    requires
        is_score_grid(out, out_width, b, bw, w, ww),
        w.len() > b.len() || ww > bw,
    ensures
        out.len() == 0,
        out_width == 0,
{
}

proof fn lemma_two_pow_mono(a: nat, b: nat)
    requires
        a <= b,
    ensures
        two_pow(a) <= two_pow(b),
    decreases b,
{
    if a < b {
        lemma_two_pow_mono(a, (b - 1) as nat);
    }
}

proof fn lemma_two_pow_63()
    ensures
        two_pow(63) == 0x8000_0000_0000_0000,
{
    reveal_with_fuel(two_pow, 64);
}

proof fn lemma_row_letters_mono(wrow: Seq<Character>, a: nat, b: nat)
    requires
        a <= b,
    ensures
        row_letters(wrow, a) <= row_letters(wrow, b),
    decreases b,
{
    if a < b {
        lemma_row_letters_mono(wrow, a, (b - 1) as nat);
    }
}

proof fn lemma_window_letters_mono(w: Seq<Seq<Character>>, ww: nat, a: nat, b: nat)
    requires
        a <= b,
    ensures
        window_letters(w, ww, a) <= window_letters(w, ww, b),
    decreases b,
{
    if a < b {
        lemma_window_letters_mono(w, ww, a, (b - 1) as nat);
    }
}

/// Scores every placement of the pattern `word` on `grid`: the cell at `(r, c)`
/// of the result is the score of putting the pattern's top-left corner at
/// `(r, c)`. A pattern larger than the board gives an empty grid.
pub fn convolve(grid: &Grid<Character>, word: &Grid<Character>) -> (out: Grid<u64>)
    requires
        pattern_fits(board_cells(*grid).len(), board_width(*grid), board_cells(*word).len(), board_width(*word))
            ==> letter_count(board_cells(*word), board_width(*word)) <= MAX_LETTERS,
        pattern_fits(board_cells(*grid).len(), board_width(*grid), board_cells(*word).len(), board_width(*word))
            ==> (board_cells(*grid).len() - board_cells(*word).len() + 1) * (board_width(*grid)
            - board_width(*word) + 1) <= max_cells(),
    ensures
        is_score_grid(
            score_cells(out),
            score_width(out),
            board_cells(*grid),
            board_width(*grid),
            board_cells(*word),
            board_width(*word),
        ),
{
    let br = board_rows(grid);
    let bw = board_cols(grid);
    let wr = board_rows(word);
    let ww = board_cols(word);
    if ww > bw || wr > br {
        return score_new(0, 0);
    }
    let ghost b = board_cells(*grid);
    let ghost w = board_cells(*word);
    proof {
        let x = br - wr + 1;
        let y = bw - ww + 1;
        assert(x <= x * y) by (nonlinear_arith)
            requires y >= 1, x >= 1;
        assert(y <= x * y) by (nonlinear_arith)
            requires y >= 1, x >= 1;
    }
    let out_rows = br - wr + 1;
    let out_cols = bw - ww + 1;
    let mut out = score_new(out_rows, out_cols);
    proof {
        lemma_two_pow_63();
    }
    let mut r: usize = 0;
    while r < out_rows
        invariant
            b == board_cells(*grid),
            w == board_cells(*word),
            br == b.len(),
            bw == board_width(*grid),
            wr == w.len(),
            ww == board_width(*word),
            is_rect(b, bw as nat),
            is_rect(w, ww as nat),
            wr <= br,
            ww <= bw,
            out_rows == br - wr + 1,
            out_cols == bw - ww + 1,
            window_letters(w, ww as nat, wr as nat) <= MAX_LETTERS,
            two_pow(63) == 0x8000_0000_0000_0000,
            r <= out_rows,
            score_cells(out).len() == out_rows,
            score_width(out) == out_cols,
            is_rect(score_cells(out), out_cols as nat),
            forall|rr: int, cc: int|
                0 <= rr < r && 0 <= cc < out_cols ==> #[trigger] score_cells(out)[rr][cc] as nat
                    == score_at(b, w, ww as nat, rr, cc),
        decreases out_rows - r,
    {
        let mut c: usize = 0;
        while c < out_cols
            invariant
                b == board_cells(*grid),
                w == board_cells(*word),
                br == b.len(),
                bw == board_width(*grid),
                wr == w.len(),
                ww == board_width(*word),
                is_rect(b, bw as nat),
                is_rect(w, ww as nat),
                wr <= br,
                ww <= bw,
                out_rows == br - wr + 1,
                out_cols == bw - ww + 1,
                window_letters(w, ww as nat, wr as nat) <= MAX_LETTERS,
                two_pow(63) == 0x8000_0000_0000_0000,
                r < out_rows,
                c <= out_cols,
                score_cells(out).len() == out_rows,
                score_width(out) == out_cols,
                is_rect(score_cells(out), out_cols as nat),
                forall|rr: int, cc: int|
                    0 <= rr < r && 0 <= cc < out_cols ==> #[trigger] score_cells(out)[rr][cc] as nat
                        == score_at(b, w, ww as nat, rr, cc),
                forall|cc: int|
                    0 <= cc < c ==> #[trigger] score_cells(out)[r as int][cc] as nat == score_at(
                        b,
                        w,
                        ww as nat,
                        r as int,
                        cc,
                    ),
            decreases out_cols - c,
        {
            let score = score_one(grid, word, r, c);
            let ghost before = score_cells(out);
            score_set(&mut out, r, c, score);
            proof {
                assert forall|rr: int, cc: int|
                    0 <= rr < r && 0 <= cc < out_cols implies #[trigger] score_cells(out)[rr][cc] as nat
                        == score_at(b, w, ww as nat, rr, cc) by {
                    assert(score_cells(out)[rr][cc] == before[rr][cc]);
                }
            }
            c = c + 1;
        }
        r = r + 1;
    }
    out
}

/// The score of the pattern `word` with its top-left corner at `(r, c)`.
fn score_one(grid: &Grid<Character>, word: &Grid<Character>, r: usize, c: usize) -> (score: u64)
    requires
        is_rect(board_cells(*grid), board_width(*grid)),
        is_rect(board_cells(*word), board_width(*word)),
        r + board_cells(*word).len() <= board_cells(*grid).len(),
        c + board_width(*word) <= board_width(*grid),
        letter_count(board_cells(*word), board_width(*word)) <= MAX_LETTERS,
    ensures
        score as nat == score_at(board_cells(*grid), board_cells(*word), board_width(*word), r as int, c as int),
{
    let ghost b = board_cells(*grid);
    let ghost w = board_cells(*word);
    let br = board_rows(grid);
    let bw = board_cols(grid);
    let wr = board_rows(word);
    let ww = board_cols(word);
    proof {
        lemma_two_pow_63();
    }
    let mut score: u64 = 1;
    let mut i: usize = 0;
    while i < wr
        invariant
            b == board_cells(*grid),
            w == board_cells(*word),
            wr == w.len(),
            ww == board_width(*word),
            is_rect(b, board_width(*grid)),
            is_rect(w, ww as nat),
            br == b.len(),
            bw == board_width(*grid),
            r + wr <= b.len(),
            c + ww <= board_width(*grid),
            window_letters(w, ww as nat, wr as nat) <= MAX_LETTERS,
            two_pow(63) == 0x8000_0000_0000_0000,
            i <= wr,
            score as nat == window_score(b, w, ww as nat, r as int, c as int, i as nat),
            score as nat <= two_pow(window_letters(w, ww as nat, i as nat)),
        decreases wr - i,
    {
        let ghost row_start = score as nat;
        let mut j: usize = 0;
        proof {
            assert(row_start * 1 == row_start);
            lemma_window_letters_mono(w, ww as nat, (i + 1) as nat, wr as nat);
        }
        while j < ww
            invariant
                b == board_cells(*grid),
                w == board_cells(*word),
                wr == w.len(),
                ww == board_width(*word),
                is_rect(b, board_width(*grid)),
                is_rect(w, ww as nat),
                br == b.len(),
                bw == board_width(*grid),
                r + wr <= b.len(),
                c + ww <= board_width(*grid),
                window_letters(w, ww as nat, (i + 1) as nat) <= MAX_LETTERS,
                two_pow(63) == 0x8000_0000_0000_0000,
                i < wr,
                j <= ww,
                row_start == window_score(b, w, ww as nat, r as int, c as int, i as nat),
                score as nat == row_start * row_score(b[r + i], w[i as int], c as int, j as nat),
                score as nat <= two_pow(window_letters(w, ww as nat, i as nat) + row_letters(w[i as int], j as nat)),
            decreases ww - j,
        {
            let ghost prev = score as nat;
            let ghost rs = row_score(b[r + i], w[i as int], c as int, j as nat);
            let ghost k = window_letters(w, ww as nat, i as nat) + row_letters(w[i as int], j as nat);
            let ghost f = cell_factor(b[r + i][c + j], w[i as int][j as int]);
            let wcell = board_get(word, i, j);
            if wcell.is_empty() {
                assert(f == 1);
                assert(prev * 1 == prev);
            } else {
                let bcell = board_get(grid, r + i, c + j);
                proof {
                    lemma_row_letters_mono(w[i as int], (j + 1) as nat, ww as nat);
                    lemma_two_pow_mono(k, 62);
                }
                if bcell.is_empty() {
                    assert(f == 1);
                    assert(prev * 1 == prev);
                } else if bcell.letter == wcell.letter && !bcell.directions.intersects(&wcell.directions) {
                    assert(f == 2);
                    score = score * 2;
                } else {
                    assert(f == 0);
                    score = 0;
                }
            }
            proof {
                assert(row_score(b[r + i], w[i as int], c as int, (j + 1) as nat) == rs * f);
                assert(score as nat == prev * f);
                assert(prev * f == row_start * (rs * f)) by (nonlinear_arith)
                    requires prev == row_start * rs;
                assert(score as nat <= two_pow(k + if w[i as int][j as int].spec_is_empty() { 0nat } else { 1nat }));
            }
            j = j + 1;
        }
        proof {
            assert(window_score(b, w, ww as nat, r as int, c as int, (i + 1) as nat) == row_start * row_score(
                b[r + i],
                w[i as int],
                c as int,
                ww as nat,
            ));
        }
        i = i + 1;
    }
    score
}

} // verus!

use vstd::prelude::*;
use grid::Grid;
use rand::rngs::StdRng;
use rand::seq::SliceRandom;
use crate::cell::{Character, Direction};
use crate::board::{max_cells, board_cells, board_width, score_cells, score_width, is_rect, board_cols, board_rows, score_rows, score_cols, score_get};
use crate::scoring::{convolve, score_at, is_score_grid, pattern_fits, MAX_LETTERS};
use crate::pattern::{to_grid, pattern_view, pattern_width, lemma_pattern_letters};

verus! {

#[verifier::external_type_specification]
#[verifier::external_body]
pub struct ExStdRng(StdRng);

/// Relies on `SliceRandom::shuffle` (rand): it only swaps elements, so the result
/// holds the same positions, each as often as before, in some order.
#[verifier::external_body]
fn shuffle_positions(v: &mut Vec<(usize, usize)>, rng: &mut StdRng)
    ensures
        final(v)@.to_multiset() == old(v)@.to_multiset(),
        final(v)@.len() == old(v)@.len(),
{
    v.shuffle(rng);
}

/// `(r, c)` is a cell of a grid of `cells` with width `width`.
pub open spec fn in_grid<T>(cells: Seq<Seq<T>>, width: nat, r: int, c: int) -> bool {
    0 <= r < cells.len() && 0 <= c < width
}

/// `m` is the largest score of the grid, or `0` for a grid without cells.
pub open spec fn is_max_score(cells: Seq<Seq<u64>>, width: nat, m: u64) -> bool {
    &&& forall|r: int, c: int| in_grid(cells, width, r, c) ==> #[trigger] cells[r][c] <= m
    &&& m > 0 ==> exists|r: int, c: int| in_grid(cells, width, r, c) && #[trigger] cells[r][c] == m
}

/// `list` holds each cell scoring `m` once, and nothing else; empty where `m` is `0`.
pub open spec fn is_best_list(list: Seq<(usize, usize)>, cells: Seq<Seq<u64>>, width: nat, m: u64) -> bool {
    &&& list.no_duplicates()
    &&& forall|p: (usize, usize)|
        #[trigger] list.contains(p) <==> (m > 0 && in_grid(cells, width, p.0 as int, p.1 as int) && cells[p.0 as int][p.1 as int]
            == m)
}

spec fn before_pos(p: (usize, usize), r: int, c: int) -> bool {
    p.0 < r || (p.0 == r && p.1 < c)
}

/// `p` comes before `q` in row-major order.
pub open spec fn pos_lt(p: (usize, usize), q: (usize, usize)) -> bool {
    p.0 < q.0 || (p.0 == q.0 && p.1 < q.1)
}

proof fn lemma_sorted_no_dups(list: Seq<(usize, usize)>)
    requires
        forall|a: int, b: int| 0 <= a < b < list.len() ==> pos_lt(#[trigger] list[a], #[trigger] list[b]),
    ensures
        list.no_duplicates(),
{
}

/// The largest score of `scores` and every cell that reaches it, in row-major
/// order; no cells, and `0`, where no score is above `0`.
pub fn max_list(scores: &Grid<u64>) -> (res: (Vec<(usize, usize)>, u64))
    ensures
        is_max_score(score_cells(*scores), score_width(*scores), res.1),
        is_best_list(res.0@, score_cells(*scores), score_width(*scores), res.1),
        forall|a: int, b: int| 0 <= a < b < res.0@.len() ==> pos_lt(#[trigger] res.0@[a], #[trigger] res.0@[b]),
{
    let ghost cells = score_cells(*scores);
    let rows = score_rows(scores);
    let cols = score_cols(scores);
    let ghost width = cols as nat;
    let mut list: Vec<(usize, usize)> = Vec::new();
    let mut max: u64 = 0;
    let mut r: usize = 0;
    while r < rows
        invariant
            cells == score_cells(*scores),
            rows == cells.len(),
            width == cols,
            cols == score_width(*scores),
            is_rect(cells, width),
            r <= rows,
            forall|x: int, y: int| in_grid(cells, width, x, y) && x < r ==> #[trigger] cells[x][y] <= max,
            max > 0 ==> exists|x: int, y: int| in_grid(cells, width, x, y) && x < r && #[trigger] cells[x][y] == max,
            forall|a: int, b: int| 0 <= a < b < list@.len() ==> pos_lt(#[trigger] list@[a], #[trigger] list@[b]),
            forall|a: int| 0 <= a < list@.len() ==> (#[trigger] list@[a]).0 < r,
            forall|p: (usize, usize)|
                #[trigger] list@.contains(p) <==> (max > 0 && in_grid(cells, width, p.0 as int, p.1 as int) && p.0 < r
                    && cells[p.0 as int][p.1 as int] == max),
        decreases rows - r,
    {
        let mut c: usize = 0;
        while c < cols
            invariant
                cells == score_cells(*scores),
                rows == cells.len(),
                width == cols,
                cols == score_width(*scores),
                is_rect(cells, width),
                r < rows,
                c <= cols,
                forall|x: int, y: int| in_grid(cells, width, x, y) && before_pos((x as usize, y as usize), r as int, c as int) ==> #[trigger] cells[x][y] <= max,
                max > 0 ==> exists|x: int, y: int|
                    in_grid(cells, width, x, y) && before_pos((x as usize, y as usize), r as int, c as int) && #[trigger] cells[x][y] == max,
                forall|a: int, b: int| 0 <= a < b < list@.len() ==> pos_lt(#[trigger] list@[a], #[trigger] list@[b]),
                forall|a: int| 0 <= a < list@.len() ==> before_pos(#[trigger] list@[a], r as int, c as int),
                forall|p: (usize, usize)|
                    #[trigger] list@.contains(p) <==> (max > 0 && in_grid(cells, width, p.0 as int, p.1 as int)
                        && before_pos(p, r as int, c as int) && cells[p.0 as int][p.1 as int] == max),
            decreases cols - c,
        {
            let v = score_get(scores, r, c);
            if v > max {
                let ghost old_list = list@;
                list = Vec::new();
                list.push((r, c));
                max = v;
                proof {
                    assert forall|p: (usize, usize)|
                        #[trigger] list@.contains(p) <==> (max > 0 && in_grid(cells, width, p.0 as int, p.1 as int)
                            && before_pos(p, r as int, c as int + 1) && cells[p.0 as int][p.1 as int] == max) by {
                        if list@.contains(p) {
                            assert(list@[0] == p);
                        }
                        if max > 0 && in_grid(cells, width, p.0 as int, p.1 as int) && before_pos(p, r as int, c as int + 1)
                            && cells[p.0 as int][p.1 as int] == max {
                            if before_pos(p, r as int, c as int) {
                                assert(cells[p.0 as int][p.1 as int] <= v - 1);
                            }
                            assert(p == (r, c));
                            assert(list@[0] == p);
                        }
                    }
                    assert(cells[r as int][c as int] == max);
                }
            } else if v == max && v > 0 {
                let ghost old_list = list@;
                list.push((r, c));
                proof {
                    assert forall|p: (usize, usize)|
                        #[trigger] list@.contains(p) <==> (max > 0 && in_grid(cells, width, p.0 as int, p.1 as int)
                            && before_pos(p, r as int, c as int + 1) && cells[p.0 as int][p.1 as int] == max) by {
                        if list@.contains(p) {
                            let k = choose|k: int| 0 <= k < list@.len() && list@[k] == p;
                            if k < old_list.len() {
                                assert(old_list.contains(p));
                            }
                        }
                        if max > 0 && in_grid(cells, width, p.0 as int, p.1 as int) && before_pos(p, r as int, c as int + 1)
                            && cells[p.0 as int][p.1 as int] == max {
                            if before_pos(p, r as int, c as int) {
                                assert(old_list.contains(p));
                                let k = choose|k: int| 0 <= k < old_list.len() && old_list[k] == p;
                                assert(list@[k] == p);
                            } else {
                                assert(list@[old_list.len() as int] == p);
                            }
                        }
                    }
                }
            } else {
                proof {
                    assert forall|p: (usize, usize)|
                        #[trigger] list@.contains(p) <==> (max > 0 && in_grid(cells, width, p.0 as int, p.1 as int)
                            && before_pos(p, r as int, c as int + 1) && cells[p.0 as int][p.1 as int] == max) by {
                        if list@.contains(p) {
                            let k = choose|k: int| 0 <= k < list@.len() && list@[k] == p;
                            assert(before_pos(list@[k], r as int, c as int));
                        }
                    }
                }
            }
            c = c + 1;
        }
        proof {
            assert forall|a: int| 0 <= a < list@.len() implies (#[trigger] list@[a]).0 < r + 1 by {
                assert(before_pos(list@[a], r as int, cols as int));
            }
            assert forall|p: (usize, usize)|
                #[trigger] list@.contains(p) <==> (max > 0 && in_grid(cells, width, p.0 as int, p.1 as int) && p.0 < r + 1
                    && cells[p.0 as int][p.1 as int] == max) by {
                if list@.contains(p) {
                    assert(before_pos(p, r as int, cols as int));
                }
            }
            if max > 0 {
                let (x, y) = choose|x: int, y: int|
                    in_grid(cells, width, x, y) && before_pos((x as usize, y as usize), r as int, cols as int) && #[trigger] cells[x][y] == max;
                assert(x < r + 1);
            }
            assert forall|x: int, y: int| in_grid(cells, width, x, y) && x < r + 1 implies #[trigger] cells[x][y] <= max by {
                assert(before_pos((x as usize, y as usize), r as int, cols as int));
            }
        }
        r = r + 1;
    }
    proof {
        lemma_sorted_no_dups(list@);
    }
    (list, max)
}

/// One direction in which a word can go: its pattern, the score of each
/// placement, and the placements with the best score.
pub struct Candidate {
    pub word: String,
    pub dir: Direction,
    pub as_grid: Grid<Character>,
    pub placements: Grid<u64>,
    pub max_placements: Vec<(usize, usize)>,
    pub max_placement_value: u64,
}

/// The top-left corner `(r, c)` keeps the pattern of `word` in direction `d` on
/// the board `b` (of width `bw`).
pub open spec fn in_range(b: Seq<Seq<Character>>, bw: nat, word: Seq<char>, d: Direction, r: int, c: int) -> bool {
    let w = pattern_view(word, d);
    let ww = pattern_width(word, d);
    &&& pattern_fits(b.len(), bw, w.len(), ww)
    &&& 0 <= r <= b.len() - w.len()
    &&& 0 <= c <= bw - ww
}

/// The score of the pattern of `word` in direction `d` at `(r, c)` of `b`.
pub open spec fn placement_score(b: Seq<Seq<Character>>, word: Seq<char>, d: Direction, r: int, c: int) -> nat {
    score_at(b, pattern_view(word, d), pattern_width(word, d), r, c)
}

/// `(r, c)` is a best placement of `word` in direction `d`: it scores above `0`,
/// and no placement in that direction scores more.
pub open spec fn is_best_position(b: Seq<Seq<Character>>, bw: nat, word: Seq<char>, d: Direction, r: int, c: int) -> bool {
    &&& in_range(b, bw, word, d, r, c)
    &&& placement_score(b, word, d, r, c) > 0
    &&& forall|r2: int, c2: int|
        #[trigger] in_range(b, bw, word, d, r2, c2) ==> placement_score(b, word, d, r2, c2) <= placement_score(
            b,
            word,
            d,
            r,
            c,
        )
}

/// `word` can go in direction `d` somewhere on `b`.
pub open spec fn has_placement(b: Seq<Seq<Character>>, bw: nat, word: Seq<char>, d: Direction) -> bool {
    exists|r: int, c: int| #[trigger] is_best_position(b, bw, word, d, r, c)
}

/// `cand` is the candidate of `word` in direction `d` on the board `b`.
pub open spec fn is_candidate(cand: Candidate, b: Seq<Seq<Character>>, bw: nat, word: Seq<char>, d: Direction) -> bool {
    let w = pattern_view(word, d);
    let ww = pattern_width(word, d);
    &&& cand.word@ == word
    &&& cand.dir == d
    &&& board_cells(cand.as_grid) == w
    &&& board_width(cand.as_grid) == ww
    &&& is_score_grid(score_cells(cand.placements), score_width(cand.placements), b, bw, w, ww)
    &&& is_max_score(score_cells(cand.placements), score_width(cand.placements), cand.max_placement_value)
    &&& cand.max_placement_value > 0
    &&& cand.max_placements@.no_duplicates()
    &&& forall|p: (usize, usize)|
        #[trigger] cand.max_placements@.contains(p) <==> is_best_position(b, bw, word, d, p.0 as int, p.1 as int)
    &&& forall|r: int, c: int|
        is_best_position(b, bw, word, d, r, c) ==> placement_score(b, word, d, r, c) == cand.max_placement_value
}

/// `cand` is the candidate of `word` on `b` in one of the directions `dirs`.
pub open spec fn is_candidate_among(
    cand: Candidate,
    b: Seq<Seq<Character>>,
    bw: nat,
    word: Seq<char>,
    dirs: Seq<Direction>,
) -> bool {
    exists|t: int| 0 <= t < dirs.len() && #[trigger] is_candidate(cand, b, bw, word, dirs[t])
}

/// `res` holds, in order, the candidates of `word` for the directions
/// `dirs[idx[0]], dirs[idx[1]], ...` among the first `n` directions, and these
/// are exactly the directions in which `word` has a placement.
pub open spec fn picks_upto(
    idx: Seq<int>,
    res: Seq<Candidate>,
    b: Seq<Seq<Character>>,
    bw: nat,
    word: Seq<char>,
    dirs: Seq<Direction>,
    n: int,
) -> bool {
    &&& idx.len() == res.len()
    &&& forall|k: int| 0 <= k < idx.len() ==> 0 <= #[trigger] idx[k] < n
    &&& forall|k1: int, k2: int| 0 <= k1 < k2 < idx.len() ==> #[trigger] idx[k1] < #[trigger] idx[k2]
    &&& forall|k: int| 0 <= k < idx.len() ==> #[trigger] is_candidate(res[k], b, bw, word, dirs[idx[k]])
    &&& forall|u: int| 0 <= u < n ==> (#[trigger] has_placement(b, bw, word, dirs[u]) <==> idx.contains(u))
}

/// `picks_upto` over all the directions.
pub open spec fn picks(
    idx: Seq<int>,
    res: Seq<Candidate>,
    b: Seq<Seq<Character>>,
    bw: nat,
    word: Seq<char>,
    dirs: Seq<Direction>,
) -> bool {
    picks_upto(idx, res, b, bw, word, dirs, dirs.len() as int)
}

/// A word the engine can score: at least one letter, and few enough letters for
/// every score to fit a `u64`.
pub open spec fn word_fits_scores(word: Seq<char>) -> bool {
    0 < word.len() <= MAX_LETTERS
}

impl Candidate {
    /// The candidates of `word` on `grid`, one for each direction of
    /// `valid_directions` in which the word has a placement scoring above `0`,
    /// in the order of `valid_directions`. Each candidate's best placements come
    /// in an order drawn from `rng`.
    pub fn create(grid: &Grid<Character>, word: &String, valid_directions: &[Direction], rng: &mut StdRng) -> (res: Vec<
        Candidate,
    >)
        requires
            word_fits_scores(word@),
        ensures
            res@.len() <= valid_directions@.len(),
            forall|k: int|
                0 <= k < res@.len() ==> #[trigger] is_candidate_among(
                    res@[k],
                    board_cells(*grid),
                    board_width(*grid),
                    word@,
                    valid_directions@,
                ),
            forall|t: int|
                0 <= t < valid_directions@.len() && #[trigger] has_placement(
                    board_cells(*grid),
                    board_width(*grid),
                    word@,
                    valid_directions@[t],
                ) ==> exists|k: int| 0 <= k < res@.len() && (#[trigger] res@[k]).dir == valid_directions@[t],
            exists|idx: Seq<int>|
                #[trigger] picks(idx, res@, board_cells(*grid), board_width(*grid), word@, valid_directions@),
    {
        let ghost b = board_cells(*grid);
        let br = board_rows(grid);
        let bw = board_cols(grid);
        let mut candidates: Vec<Candidate> = Vec::new();
        let ghost mut idx: Seq<int> = Seq::empty();
        let mut t: usize = 0;
        while t < valid_directions.len()
            invariant
                b == board_cells(*grid),
                br == b.len(),
                bw == board_width(*grid),
                is_rect(b, bw as nat),
                br * bw <= max_cells(),
                word_fits_scores(word@),
                t <= valid_directions@.len(),
                candidates@.len() <= t,
                picks_upto(idx, candidates@, b, bw as nat, word@, valid_directions@, t as int),
                forall|k: int|
                    0 <= k < candidates@.len() ==> #[trigger] is_candidate_among(
                        candidates@[k],
                        b,
                        bw as nat,
                        word@,
                        valid_directions@,
                    ),
                forall|u: int|
                    0 <= u < t && #[trigger] has_placement(b, bw as nat, word@, valid_directions@[u]) ==> exists|k: int|
                        0 <= k < candidates@.len() && (#[trigger] candidates@[k]).dir == valid_directions@[u],
            decreases valid_directions@.len() - t,
        {
            let dir = valid_directions[t];
            let ghost w = pattern_view(word@, dir);
            let ghost ww = pattern_width(word@, dir);
            proof {
                let len = word@.len();
                assert(len * len <= 63 * 63) by (nonlinear_arith)
                    requires len <= 63;
                lemma_pattern_letters(word@, dir);
            }
            let word_grid = to_grid(word, dir);
            proof {
                let wr = w.len();
                if pattern_fits(br as nat, bw as nat, wr, ww) {
                    assert(wr >= 1 && ww >= 1);
                    assert((br - wr + 1) * (bw - ww + 1) <= br * bw) by (nonlinear_arith)
                        requires wr >= 1, ww >= 1, wr <= br, ww <= bw;
                }
            }
            let placements = convolve(grid, &word_grid);
            let (mut max_list_v, max_val) = max_list(&placements);
            let ghost sc = score_cells(placements);
            let ghost sw = score_width(placements);
            let ghost before = max_list_v@;
            shuffle_positions(&mut max_list_v, rng);
            proof {
                broadcast use vstd::seq_lib::group_to_multiset_ensures;
                assert forall|p: (usize, usize)| #[trigger] max_list_v@.contains(p) <==> before.contains(p) by {
                    assert(max_list_v@.to_multiset().count(p) == before.to_multiset().count(p));
                }
                before.lemma_multiset_has_no_duplicates();
                max_list_v@.lemma_multiset_has_no_duplicates_conv();
                assert forall|r: int, c: int| in_range(b, bw as nat, word@, dir, r, c) <==> #[trigger] in_grid(sc, sw, r, c) by {
                }
                assert forall|r: int, c: int| #[trigger] in_grid(sc, sw, r, c) implies sc[r][c] as nat == placement_score(b, word@, dir, r, c) by {
                }
                assert forall|p: (usize, usize)| #[trigger] max_list_v@.contains(p) <==> is_best_position(b, bw as nat, word@, dir, p.0 as int, p.1 as int) by {
                    if is_best_position(b, bw as nat, word@, dir, p.0 as int, p.1 as int) {
                        assert(in_grid(sc, sw, p.0 as int, p.1 as int));
                        let (x, y) = choose|x: int, y: int| in_grid(sc, sw, x, y) && #[trigger] sc[x][y] == max_val;
                        assert(in_range(b, bw as nat, word@, dir, x, y));
                    }
                    if max_list_v@.contains(p) {
                        assert forall|r2: int, c2: int| #[trigger] in_range(b, bw as nat, word@, dir, r2, c2) implies
                            placement_score(b, word@, dir, r2, c2) <= placement_score(b, word@, dir, p.0 as int, p.1 as int) by {
                            assert(in_grid(sc, sw, r2, c2));
                        }
                    }
                }
                assert forall|r: int, c: int| is_best_position(b, bw as nat, word@, dir, r, c) implies
                    placement_score(b, word@, dir, r, c) == max_val by {
                    assert(in_grid(sc, sw, r, c));
                    let (x, y) = choose|x: int, y: int| in_grid(sc, sw, x, y) && #[trigger] sc[x][y] == max_val;
                    assert(in_range(b, bw as nat, word@, dir, x, y));
                }
            }
            if max_val > 0 {
                let cand = Candidate {
                    word: word.clone(),
                    dir: dir,
                    as_grid: word_grid,
                    placements: placements,
                    max_placement_value: max_val,
                    max_placements: max_list_v,
                };
                let ghost prior = candidates@;
                let ghost prior_idx = idx;
                candidates.push(cand);
                proof {
                    idx = idx.push(t as int);
                    let (x, y) = choose|x: int, y: int| in_grid(sc, sw, x, y) && #[trigger] sc[x][y] == max_val;
                    assert(in_range(b, bw as nat, word@, dir, x, y));
                    assert(max_list_v@.contains((x as usize, y as usize)));
                    assert(is_best_position(b, bw as nat, word@, dir, x as usize as int, y as usize as int));
                    assert(has_placement(b, bw as nat, word@, valid_directions@[t as int]));
                    assert forall|u: int| 0 <= u < t + 1 implies (#[trigger] has_placement(
                        b,
                        bw as nat,
                        word@,
                        valid_directions@[u],
                    ) <==> idx.contains(u)) by {
                        if u < t {
                            if prior_idx.contains(u) {
                                let j = choose|j: int| 0 <= j < prior_idx.len() && prior_idx[j] == u;
                                assert(idx[j] == u);
                            }
                            if idx.contains(u) {
                                let j = choose|j: int| 0 <= j < idx.len() && idx[j] == u;
                                assert(j < prior_idx.len());
                                assert(prior_idx[j] == u);
                            }
                        } else {
                            assert(idx[idx.len() - 1] == u);
                        }
                    }
                    assert forall|k: int| 0 <= k < idx.len() implies #[trigger] is_candidate(
                        candidates@[k],
                        b,
                        bw as nat,
                        word@,
                        valid_directions@[idx[k]],
                    ) by {
                        if k < prior.len() {
                            assert(candidates@[k] == prior[k]);
                            assert(idx[k] == prior_idx[k]);
                        }
                    }
                    assert(is_candidate(candidates@[candidates@.len() - 1], b, bw as nat, word@, valid_directions@[t as int]));
                    assert forall|k: int|
                        0 <= k < candidates@.len() implies #[trigger] is_candidate_among(
                            candidates@[k],
                            b,
                            bw as nat,
                            word@,
                            valid_directions@,
                        ) by {
                        if k == candidates@.len() - 1 {
                            assert(is_candidate(candidates@[k], b, bw as nat, word@, valid_directions@[t as int]));
                        } else {
                            assert(candidates@[k] == prior[k]);
                        }
                    }
                    assert forall|u: int|
                        0 <= u < t + 1 && #[trigger] has_placement(b, bw as nat, word@, valid_directions@[u]) implies exists|k: int|
                            0 <= k < candidates@.len() && (#[trigger] candidates@[k]).dir == valid_directions@[u] by {
                        if u == t {
                            assert(candidates@[candidates@.len() - 1].dir == valid_directions@[u]);
                        } else {
                            let k = choose|k: int| 0 <= k < prior.len() && (#[trigger] prior[k]).dir == valid_directions@[u];
                            assert(candidates@[k] == prior[k]);
                        }
                    }
                }
            } else {
                proof {
                    if has_placement(b, bw as nat, word@, dir) {
                        let (r, c) = choose|r: int, c: int| #[trigger] is_best_position(b, bw as nat, word@, dir, r, c);
                        assert(in_grid(sc, sw, r, c));
                    }
                    assert(!has_placement(b, bw as nat, word@, valid_directions@[t as int]));
                    assert(!idx.contains(t as int)) by {
                        if idx.contains(t as int) {
                            let j = choose|j: int| 0 <= j < idx.len() && idx[j] == t;
                        }
                    }
                }
            }
            t = t + 1;
        }
        proof {
            assert(picks(idx, candidates@, b, bw as nat, word@, valid_directions@));
        }
        candidates
    }
}

} // verus!

use vstd::prelude::*;
use grid::Grid;
use rand::rngs::StdRng;
use crate::cell::{Character, Direction};
use crate::board::{max_cells, board_cells, board_width, board_clone, board_cols, board_rows, board_init, filled, filled_width};
use crate::scoring::{MAX_LETTERS, pattern_fits, lemma_positive_score_no_conflict, no_conflict, is_conflict};
use crate::pattern::{pattern_view, pattern_width, pattern_rows, pattern_cols};
use crate::merge::{combine, merged_board, can_merge, covered};
use crate::candidate::{
    Candidate, is_best_position, has_placement, is_candidate, is_candidate_among, word_fits_scores,
};

verus! {

/// One snapshot of the board: the state after some prefix of the words has
/// been placed.
pub struct Board {
    pub grid: Grid<Character>,
}

/// The letters of each word.
pub open spec fn word_views(words: Seq<String>) -> Seq<Seq<char>> {
    Seq::new(words.len(), |i: int| words[i]@)
}

/// The board `b` after `word` is merged into it in direction `d` at `(r, c)`.
pub open spec fn placed(b: Seq<Seq<Character>>, word: Seq<char>, d: Direction, r: int, c: int) -> Seq<Seq<Character>> {
    merged_board(b, pattern_view(word, d), pattern_width(word, d), r, c)
}

/// The words can all be placed on `b`, in order, each at one of its best
/// placements in one of the directions `dirs`.
pub open spec fn solvable(b: Seq<Seq<Character>>, bw: nat, words: Seq<Seq<char>>, dirs: Seq<Direction>) -> bool
    decreases words.len(),
{
    if words.len() == 0 {
        true
    } else {
        exists|t: int, r: int, c: int|
            0 <= t < dirs.len() && #[trigger] is_best_position(b, bw, words[0], dirs[t], r, c) && solvable(
                placed(b, words[0], dirs[t], r, c),
                bw,
                words.drop_first(),
                dirs,
            )
    }
}

/// `next` is `prev` with `word` placed at one of its best placements in one of
/// the directions `dirs`.
pub open spec fn is_step(prev: Board, next: Board, word: Seq<char>, dirs: Seq<Direction>) -> bool {
    let b = board_cells(prev.grid);
    let bw = board_width(prev.grid);
    &&& board_width(next.grid) == bw
    &&& exists|t: int, r: int, c: int|
        0 <= t < dirs.len() && #[trigger] is_best_position(b, bw, word, dirs[t], r, c) && board_cells(next.grid)
            == placed(b, word, dirs[t], r, c)
}

/// The last `n` snapshots of `stack`, starting from its snapshot `base`, place
/// `words` one after another.
pub open spec fn is_chain(stack: Seq<Board>, base: int, words: Seq<Seq<char>>, dirs: Seq<Direction>) -> bool {
    &&& stack.len() == base + 1 + words.len()
    &&& forall|k: int| 0 <= k < words.len() ==> #[trigger] is_step(stack[base + k], stack[base + k + 1], words[k], dirs)
}

proof fn lemma_insert_contains(s: Seq<usize>, i: int, a: usize)
    requires
        0 <= i <= s.len(),
    ensures
        forall|x: usize| #[trigger] s.insert(i, a).contains(x) <==> (s.contains(x) || x == a),
        s.insert(i, a).len() == s.len() + 1,
{
    s.insert_ensures(i, a);
    let t = s.insert(i, a);
    assert forall|x: usize| #[trigger] t.contains(x) <==> (s.contains(x) || x == a) by {
        if t.contains(x) {
            let k = choose|k: int| 0 <= k < t.len() && t[k] == x;
            if k < i {
                assert(s[k] == x);
            } else if k > i {
                assert(s[k - 1] == x);
            }
        }
        if s.contains(x) {
            let k = choose|k: int| 0 <= k < s.len() && s[k] == x;
            if k < i {
                assert(t[k] == x);
            } else {
                assert(t[k + 1] == x);
            }
        }
        if x == a {
            assert(t[i] == x);
        }
    }
}

/// The indices of `cands`, ordered by descending best score (ties keep their
/// order).
pub fn order_by_value(cands: &Vec<Candidate>) -> (order: Vec<usize>)
    ensures
        order@.len() == cands@.len(),
        forall|k: usize| #[trigger] order@.contains(k) <==> k < cands@.len(),
        forall|o: int| 0 <= o < order@.len() ==> #[trigger] order@[o] < cands@.len(),
        forall|o1: int, o2: int|
            0 <= o1 < o2 < order@.len() ==> cands@[#[trigger] order@[o1] as int].max_placement_value
                >= cands@[#[trigger] order@[o2] as int].max_placement_value,
{
    let n = cands.len();
    let mut order: Vec<usize> = Vec::new();
    let mut k: usize = 0;
    while k < n
        invariant
            n == cands@.len(),
            k <= n,
            order@.len() == k,
            forall|x: usize| #[trigger] order@.contains(x) <==> x < k,
            forall|o: int| 0 <= o < order@.len() ==> #[trigger] order@[o] < k,
            forall|o1: int, o2: int|
                0 <= o1 < o2 < order@.len() ==> cands@[#[trigger] order@[o1] as int].max_placement_value
                    >= cands@[#[trigger] order@[o2] as int].max_placement_value,
        decreases n - k,
    {
        let v = cands[k].max_placement_value;
        let mut pos: usize = 0;
        while pos < order.len() && cands[order[pos]].max_placement_value >= v
            invariant
                n == cands@.len(),
                k < n,
                v == cands@[k as int].max_placement_value,
                pos <= order@.len(),
                forall|o: int| 0 <= o < order@.len() ==> #[trigger] order@[o] < k,
                forall|o: int| 0 <= o < pos ==> cands@[#[trigger] order@[o] as int].max_placement_value >= v,
            decreases order@.len() - pos,
        {
            pos = pos + 1;
        }
        let ghost before = order@;
        proof {
            lemma_insert_contains(before, pos as int, k);
            before.insert_ensures(pos as int, k);
        }
        order.insert(pos, k);
        proof {
            assert forall|x: usize| #[trigger] order@.contains(x) <==> x < k + 1 by {
                assert(before.contains(x) <==> x < k);
            }
            assert forall|o: int| 0 <= o < order@.len() implies #[trigger] order@[o] < k + 1 by {
                if o < pos {
                    assert(order@[o] == before[o]);
                } else if o > pos {
                    assert(order@[o] == before[o - 1]);
                }
            }
            assert forall|o1: int, o2: int|
                0 <= o1 < o2 < order@.len() implies cands@[#[trigger] order@[o1] as int].max_placement_value
                    >= cands@[#[trigger] order@[o2] as int].max_placement_value by {
                let a = order@[o1];
                let b = order@[o2];
                if o1 < pos {
                    assert(a == before[o1]);
                    if o2 < pos {
                        assert(b == before[o2]);
                    } else if o2 > pos {
                        assert(b == before[o2 - 1]);
                        if pos < before.len() {
                            assert(cands@[before[pos as int] as int].max_placement_value < v);
                        }
                    }
                } else if o1 == pos {
                    assert(b == before[o2 - 1]);
                    assert(cands@[before[pos as int] as int].max_placement_value < v);
                    if o2 - 1 > pos {
                        assert(cands@[before[pos as int] as int].max_placement_value >= cands@[before[o2 - 1] as int].max_placement_value);
                    }
                } else {
                    assert(a == before[o1 - 1]);
                    assert(b == before[o2 - 1]);
                }
            }
        }
        k = k + 1;
    }
    order
}

proof fn lemma_no_conflict_can_merge(b: Seq<Seq<Character>>, bw: nat, w: Seq<Seq<Character>>, ww: nat, r: int, c: int)
    requires
        no_conflict(b, w, ww, r, c),
    ensures
        can_merge(b, bw, w, ww, r, c),
{
    assert forall|x: int, y: int|
        0 <= x < b.len() && 0 <= y < bw && #[trigger] covered(w, ww, r, c, x, y) implies b[x][y].accepts(
            w[x - r][y - c],
        ) by {
        let i = x - r;
        let j = y - c;
        assert(!is_conflict(b[r + i][c + j], w[i][j]));
    }
}

/// Places `words[index..]` one after another on the board at the top of
/// `grid_stack`, pushing one snapshot per word. For each word it tries every
/// direction of `dirs` that has a placement, the better-scoring directions
/// first, and in each every best placement, in an order drawn from `rng`; a
/// placement whose continuation fails is popped again before the next is tried.
///
/// It succeeds exactly when the words are `solvable` from the top board. On
/// success the stack holds one new snapshot per word, each placing its word on
/// the one below; on failure it is as it was.
pub fn place_words_backtrack_convolution(
    grid_stack: &mut Vec<Board>,
    words: &Vec<String>,
    index: usize,
    dirs: &[Direction],
    rng: &mut StdRng,
) -> (res: bool)
    requires
        old(grid_stack)@.len() > 0,
        index <= words@.len(),
        forall|i: int| index <= i < words@.len() ==> #[trigger] word_fits_scores(words@[i]@),
    ensures
        res == solvable(
            board_cells(old(grid_stack)@.last().grid),
            board_width(old(grid_stack)@.last().grid),
            word_views(words@).subrange(index as int, words@.len() as int),
            dirs@,
        ),
        !res ==> final(grid_stack)@ == old(grid_stack)@,
        res ==> final(grid_stack)@.subrange(0, old(grid_stack)@.len() as int) == old(grid_stack)@,
        res ==> is_chain(
            final(grid_stack)@,
            old(grid_stack)@.len() - 1,
            word_views(words@).subrange(index as int, words@.len() as int),
            dirs@,
        ),
    decreases words@.len() - index,
{
    let ghost start = grid_stack@;
    let ghost rest = word_views(words@).subrange(index as int, words@.len() as int);
    if index == words.len() {
        proof {
            assert(rest.len() == 0);
            assert(grid_stack@.subrange(0, start.len() as int) =~= start);
        }
        return true;
    }
    let n = grid_stack.len();
    let last = board_clone(&grid_stack[n - 1].grid);
    let ghost b = board_cells(last);
    let ghost bw = board_width(last);
    let br = board_rows(&last);
    let bc = board_cols(&last);
    let ghost word = words@[index as int]@;
    let ghost tail = word_views(words@).subrange(index as int + 1, words@.len() as int);
    proof {
        assert(rest[0] == word);
        assert(rest.drop_first() =~= tail);
        assert(word_fits_scores(words@[index as int]@));
    }
    let candidates = Candidate::create(&last, &words[index], dirs, rng);
    let order = order_by_value(&candidates);
    let mut o: usize = 0;
    while o < order.len()
        invariant
            grid_stack@ == start,
            start == old(grid_stack)@,
            start.len() == n,
            n > 0,
            b == board_cells(start.last().grid),
            bw == board_width(start.last().grid),
            b == board_cells(last),
            bw == board_width(last),
            index < words@.len(),
            br == b.len(),
            bc == bw,
            words@.len() <= usize::MAX,
            rest == word_views(words@).subrange(index as int, words@.len() as int),
            rest.len() > 0,
            rest[0] == word,
            rest.drop_first() == tail,
            word == words@[index as int]@,
            tail == word_views(words@).subrange(index as int + 1, words@.len() as int),
            forall|i: int| index <= i < words@.len() ==> #[trigger] word_fits_scores(words@[i]@),
            order@.len() == candidates@.len(),
            forall|q: int| 0 <= q < order@.len() ==> #[trigger] order@[q] < candidates@.len(),
            forall|k: int| 0 <= k < candidates@.len() ==> #[trigger] is_candidate_among(candidates@[k], b, bw, word, dirs@),
            o <= order@.len(),
            forall|q: int, p: (usize, usize)|
                0 <= q < o && #[trigger] candidates@[order@[q] as int].max_placements@.contains(p) ==> !solvable(
                    placed(b, word, candidates@[order@[q] as int].dir, p.0 as int, p.1 as int),
                    bw,
                    tail,
                    dirs@,
                ),
        decreases order@.len() - o,
    {
        let cand = &candidates[order[o]];
        let ghost cd = cand.dir;
        proof {
            let t = choose|t: int| 0 <= t < dirs@.len() && #[trigger] is_candidate(*cand, b, bw, word, dirs@[t]);
        }
        let mut q: usize = 0;
        while q < cand.max_placements.len()
            invariant
                grid_stack@ == start,
                start == old(grid_stack)@,
                start.len() == n,
                n > 0,
                b == board_cells(start.last().grid),
                bw == board_width(start.last().grid),
                b == board_cells(last),
                bw == board_width(last),
                index < words@.len(),
                br == b.len(),
                bc == bw,
                words@.len() <= usize::MAX,
                rest == word_views(words@).subrange(index as int, words@.len() as int),
                rest.len() > 0,
                rest[0] == word,
                rest.drop_first() == tail,
                word == words@[index as int]@,
                tail == word_views(words@).subrange(index as int + 1, words@.len() as int),
                forall|i: int| index <= i < words@.len() ==> #[trigger] word_fits_scores(words@[i]@),
                is_candidate_among(*cand, b, bw, word, dirs@),
                cd == cand.dir,
                q <= cand.max_placements@.len(),
                forall|q2: int|
                    0 <= q2 < q ==> !solvable(
                        placed(b, word, cd, (#[trigger] cand.max_placements@[q2]).0 as int, cand.max_placements@[q2].1 as int),
                        bw,
                        tail,
                        dirs@,
                    ),
            decreases cand.max_placements@.len() - q,
        {
            let (pr, pc) = cand.max_placements[q];
            let ghost t = choose|t: int| 0 <= t < dirs@.len() && #[trigger] is_candidate(*cand, b, bw, word, dirs@[t]);
            proof {
                assert(cand.max_placements@.contains((pr, pc)));
                assert(is_best_position(b, bw, word, dirs@[t], pr as int, pc as int));
                lemma_positive_score_no_conflict(b, pattern_view(word, cd), pattern_width(word, cd), pr as int, pc as int);
                lemma_no_conflict_can_merge(b, bw, pattern_view(word, cd), pattern_width(word, cd), pr as int, pc as int);
            }
            let mut current = board_clone(&last);
            combine(&mut current, &cand.as_grid, pr, pc);
            grid_stack.push(Board { grid: current });
            let ghost pushed = grid_stack@;
            proof {
                assert(pushed.last().grid == current);
            }
            if place_words_backtrack_convolution(grid_stack, words, index + 1, dirs, rng) {
                proof {
                    assert(tail =~= word_views(words@).subrange(index as int + 1, words@.len() as int));
                    assert(solvable(placed(b, word, dirs@[t], pr as int, pc as int), bw, tail, dirs@));
                    assert(is_best_position(b, bw, word, dirs@[t], pr as int, pc as int));
                    assert(rest.len() > 0);
                    assert(solvable(b, bw, rest, dirs@));
                    let fin = grid_stack@;
                    assert(fin.subrange(0, pushed.len() as int) == pushed);
                    assert(fin[n as int] == pushed[n as int]);
                    assert(fin.subrange(0, pushed.len() as int)[n - 1] == fin[n - 1]);
                    assert(fin.subrange(0, pushed.len() as int)[n as int] == fin[n as int]);
                    assert(fin[n - 1] == start[n - 1]);
                    assert(fin.subrange(0, start.len() as int) =~= start) by {
                        assert forall|i: int| 0 <= i < start.len() implies fin[i] == start[i] by {
                            assert(fin.subrange(0, pushed.len() as int)[i] == fin[i]);
                            assert(fin[i] == pushed[i]);
                        }
                    }
                    assert(is_step(fin[n - 1], fin[n as int], word, dirs@));
                    assert forall|k: int| 0 <= k < rest.len() implies #[trigger] is_step(
                        fin[n - 1 + k],
                        fin[n - 1 + k + 1],
                        rest[k],
                        dirs@,
                    ) by {
                        if k > 0 {
                            assert(rest.drop_first()[k - 1] == rest[k]);
                            assert(rest[k] == tail[k - 1]);
                            assert(is_step(fin[n + (k - 1)], fin[n + (k - 1) + 1], tail[k - 1], dirs@));
                        }
                    }
                }
                return true;
            }
            grid_stack.pop();
            proof {
                assert(grid_stack@ =~= start);
            }
            q = q + 1;
        }
        proof {
            assert forall|q2: int, p: (usize, usize)|
                0 <= q2 < o + 1 && #[trigger] candidates@[order@[q2] as int].max_placements@.contains(p) implies !solvable(
                    placed(b, word, candidates@[order@[q2] as int].dir, p.0 as int, p.1 as int),
                    bw,
                    tail,
                    dirs@,
                ) by {
                if q2 == o {
                    let k = choose|k: int| 0 <= k < cand.max_placements@.len() && cand.max_placements@[k] == p;
                    assert(!solvable(
                        placed(b, word, cd, cand.max_placements@[k].0 as int, cand.max_placements@[k].1 as int),
                        bw,
                        tail,
                        dirs@,
                    ));
                }
            }
        }
        o = o + 1;
    }
    proof {
        if solvable(b, bw, rest, dirs@) {
            let (t, r, c) = choose|t: int, r: int, c: int|
                0 <= t < dirs@.len() && #[trigger] is_best_position(b, bw, rest[0], dirs@[t], r, c) && solvable(
                    placed(b, rest[0], dirs@[t], r, c),
                    bw,
                    rest.drop_first(),
                    dirs@,
                );
            assert(has_placement(b, bw, word, dirs@[t]));
            let k = choose|k: int| 0 <= k < candidates@.len() && (#[trigger] candidates@[k]).dir == dirs@[t];
            assert(is_candidate_among(candidates@[k], b, bw, word, dirs@));
            let u = choose|u: int| 0 <= u < dirs@.len() && #[trigger] is_candidate(candidates@[k], b, bw, word, dirs@[u]);
            assert(dirs@[u] == dirs@[t]);
            assert(r == r as usize as int && c == c as usize as int);
            let p: (usize, usize) = (r as usize, c as usize);
            assert(candidates@[k].max_placements@.contains(p));
            assert(order@.contains(k as usize));
            let q = choose|q: int| 0 <= q < order@.len() && order@[q] == k as usize;
            assert(candidates@[order@[q] as int].max_placements@.contains(p));
            assert(false);
        }
    }
    false
}

/// Why no board came out of `place_words`.
#[derive(Clone, Copy, PartialEq, Eq, Structural, Debug)]
pub enum PlaceError {
    /// A word is empty or holds a character outside the alphabet `A`..`Z`
    /// (the blank that marks an empty cell among them); it is refused before
    /// any search, as a word too large is.
    InvalidWord,
    /// A word fits the board in none of the directions, or has more letters than
    /// a score can account for.
    InputTooLarge,
    /// The search tried every best placement and none led to a full board.
    SearchExhausted,
}

/// `ch` is a letter of the puzzle's alphabet.
pub open spec fn in_alphabet(ch: char) -> bool {
    'A' <= ch <= 'Z'
}

/// A word the board can hold at all: at least one letter, and only letters of
/// the alphabet.
pub open spec fn word_is_valid(word: Seq<char>) -> bool {
    word.len() > 0 && forall|j: int| 0 <= j < word.len() ==> in_alphabet(#[trigger] word[j])
}

/// In one of the directions `dirs`, the pattern of a word of `len` letters fits
/// a board of `br` rows and `bw` columns.
pub open spec fn fits_some_direction(len: nat, br: nat, bw: nat, dirs: Seq<Direction>) -> bool {
    exists|t: int| 0 <= t < dirs.len() && pattern_fits(br, bw, pattern_rows(#[trigger] dirs[t], len), pattern_cols(dirs[t], len))
}

/// A word that no search needs to try: it fits no direction, or has more
/// letters than a score can account for.
pub open spec fn too_large(word: Seq<char>, br: nat, bw: nat, dirs: Seq<Direction>) -> bool {
    word.len() > MAX_LETTERS || !fits_some_direction(word.len(), br, bw, dirs)
}

/// All words are valid and none is too large for the board.
pub open spec fn inputs_ok(words: Seq<Seq<char>>, br: nat, bw: nat, dirs: Seq<Direction>) -> bool {
    forall|i: int| 0 <= i < words.len() ==> word_is_valid(#[trigger] words[i]) && !too_large(words[i], br, bw, dirs)
}

fn is_valid_word(word: &String) -> (r: bool)
    ensures
        r == word_is_valid(word@),
{
    let len = word.as_str().unicode_len();
    if len == 0 {
        return false;
    }
    let mut i: usize = 0;
    while i < len
        invariant
            len == word@.len(),
            i <= len,
            forall|j: int| 0 <= j < i ==> in_alphabet(#[trigger] word@[j]),
        decreases len - i,
    {
        let ch = word.as_str().get_char(i);
        if !('A' <= ch && ch <= 'Z') {
            return false;
        }
        i = i + 1;
    }
    true
}

fn fits_some(len: usize, br: usize, bw: usize, dirs: &Vec<Direction>) -> (r: bool)
    ensures
        r == fits_some_direction(len as nat, br as nat, bw as nat, dirs@),
{
    let mut t: usize = 0;
    while t < dirs.len()
        invariant
            t <= dirs@.len(),
            forall|u: int|
                0 <= u < t ==> !pattern_fits(
                    br as nat,
                    bw as nat,
                    pattern_rows(#[trigger] dirs@[u], len as nat),
                    pattern_cols(dirs@[u], len as nat),
                ),
        decreases dirs@.len() - t,
    {
        let d = dirs[t];
        let wr: usize = match d {
            Direction::EE | Direction::WW => 1,
            _ => len,
        };
        let wc: usize = match d {
            Direction::NN | Direction::SS => 1,
            _ => len,
        };
        if wr <= br && wc <= bw {
            return true;
        }
        t = t + 1;
    }
    false
}

/// Places every word of `words`, in order, on an empty board of `rows` ×
/// `cols`, reading in the directions `dirs`. On success it returns the snapshot
/// stack: the empty board, then one board per word, each placing its word on the
/// one before; the last is the finished puzzle. Cells that no word covers stay
/// empty.
///
/// Fails with `InvalidWord` if a word is empty or holds a character outside
/// `A`..`Z`; otherwise
/// with `InputTooLarge` if a word fits no direction (or is longer than
/// `MAX_LETTERS`), before any search; otherwise with `SearchExhausted` exactly
/// when the words are not `solvable` on the empty board.
pub fn place_words(rows: usize, cols: usize, words: &Vec<String>, dirs: &Vec<Direction>, rng: &mut StdRng) -> (res:
    Result<Vec<Board>, PlaceError>)
    requires
        rows * cols <= max_cells(),
    ensures
        ({
            let ws = word_views(words@);
            let e = filled(rows as nat, cols as nat, Character::spec_empty());
            let ew = filled_width(rows as nat, cols as nat);
            &&& (res == Err::<Vec<Board>, PlaceError>(PlaceError::InvalidWord)) <==> exists|i: int|
                0 <= i < ws.len() && !word_is_valid(#[trigger] ws[i])
            &&& (res == Err::<Vec<Board>, PlaceError>(PlaceError::InputTooLarge)) <==> (forall|i: int|
                0 <= i < ws.len() ==> word_is_valid(#[trigger] ws[i])) && exists|i: int|
                0 <= i < ws.len() && too_large(#[trigger] ws[i], e.len(), ew, dirs@)
            &&& (res is Ok) <==> inputs_ok(ws, e.len(), ew, dirs@) && solvable(e, ew, ws, dirs@)
            &&& (res == Err::<Vec<Board>, PlaceError>(PlaceError::SearchExhausted)) <==> inputs_ok(ws, e.len(), ew, dirs@)
                && !solvable(e, ew, ws, dirs@)
            &&& res is Ok ==> {
                let stack = res->Ok_0@;
                &&& board_cells(stack[0].grid) == e
                &&& board_width(stack[0].grid) == ew
                &&& is_chain(stack, 0, ws, dirs@)
            }
        }),
{
    let ghost ws = word_views(words@);
    let n = words.len();
    let mut i: usize = 0;
    while i < n
        invariant
            n == words@.len(),
            ws == word_views(words@),
            i <= n,
            forall|j: int| 0 <= j < i ==> word_is_valid(#[trigger] ws[j]),
        decreases n - i,
    {
        if !is_valid_word(&words[i]) {
            proof {
                assert(!word_is_valid(ws[i as int]));
                assert(!inputs_ok(ws, filled(rows as nat, cols as nat, Character::spec_empty()).len(), filled_width(rows as nat, cols as nat), dirs@));
            }
            return Err(PlaceError::InvalidWord);
        }
        i = i + 1;
    }
    let grid = board_init(rows, cols, Character::default());
    let br = board_rows(&grid);
    let bw = board_cols(&grid);
    let ghost e = board_cells(grid);
    let ghost ew = board_width(grid);
    let mut i: usize = 0;
    while i < n
        invariant
            n == words@.len(),
            ws == word_views(words@),
            br == e.len(),
            bw == ew,
            e == filled(rows as nat, cols as nat, Character::spec_empty()),
            ew == filled_width(rows as nat, cols as nat),
            i <= n,
            forall|j: int| 0 <= j < n ==> word_is_valid(#[trigger] ws[j]),
            forall|j: int| 0 <= j < i ==> !too_large(#[trigger] ws[j], e.len(), ew, dirs@),
        decreases n - i,
    {
        let len = words[i].as_str().unicode_len();
        if len > MAX_LETTERS || !fits_some(len, br, bw, dirs) {
            proof {
                assert(too_large(ws[i as int], e.len(), ew, dirs@));
                assert(!inputs_ok(ws, e.len(), ew, dirs@));
            }
            return Err(PlaceError::InputTooLarge);
        }
        i = i + 1;
    }
    proof {
        assert(inputs_ok(ws, e.len(), ew, dirs@));
        assert forall|j: int| 0 <= j < words@.len() implies #[trigger] word_fits_scores(words@[j]@) by {
            assert(ws[j] == words@[j]@);
        }
        assert(ws.subrange(0, ws.len() as int) =~= ws);
    }
    let mut stack: Vec<Board> = Vec::new();
    stack.push(Board { grid: grid });
    let ghost start = stack@;
    if place_words_backtrack_convolution(&mut stack, words, 0, dirs.as_slice(), rng) {
        proof {
            assert(stack@.subrange(0, 1)[0] == stack@[0]);
        }
        Ok(stack)
    } else {
        Err(PlaceError::SearchExhausted)
    }
}

} // verus!

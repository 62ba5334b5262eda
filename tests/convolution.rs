use grid::Grid;
use rand::rngs::StdRng;
use rand::SeedableRng;
use word_search::candidate::{max_list, Candidate};
use word_search::cell::{CharDirection, Character, Direction, EMPTY};
use word_search::merge::combine;
use word_search::pattern::{gg, ggd, to_grid};
use word_search::scoring::convolve;

fn rows(cells: &[&str]) -> Vec<Vec<char>> {
    cells.iter().map(|r| r.chars().collect()).collect()
}

#[test]
fn test_convolve() {
    let g = gg(&vec![
        vec![' ', ' ', 'a', 'y'],
        vec![' ', 'b', ' ', ' '],
        vec![' ', ' ', ' ', 'z'],
        vec![' ', ' ', ' ', ' '],
    ]);
    let w1 = gg(&vec![vec!['a', 'b', 'c', 'd']]);
    let w2 = gg(&vec![vec!['a'], vec!['b'], vec!['c'], vec!['d']]);
    let z1 = convolve(&g, &w1);
    let z2 = convolve(&g, &w2);

    assert!(z1 == Grid::from_vec(vec![0, 2, 0, 1], 1));
    assert!(z2 == Grid::from_vec(vec![1, 2, 2, 0], 4));
}

#[test]
fn test_convolve_2() {
    let g = gg(&vec![
        vec![' ', ' ', 'a', 'y'],
        vec![' ', 'b', ' ', ' '],
        vec![' ', ' ', ' ', 'z'],
        vec!['a', ' ', ' ', 'a'],
        vec!['a', ' ', ' ', 'b'],
        vec!['a', ' ', ' ', ' '],
        vec!['z', ' ', ' ', ' '],
    ]);
    let w1: Grid<Character> = gg(&vec![vec!['a', 'b', 'c', 'd']]);
    let w2 = gg(&vec![vec!['a'], vec!['b'], vec!['c'], vec!['d']]);
    let z1 = convolve(&g, &w1);
    let z2 = convolve(&g, &w2);

    assert!(z1 == Grid::from_vec(vec![0, 2, 0, 0, 0, 2, 0], 1));
    assert!(
        z2 == Grid::from_vec(
            vec![
                0, 2, 2, 0, //
                0, 0, 1, 0, //
                0, 1, 1, 0, //
                0, 1, 1, 4,
            ],
            4
        )
    );
}

#[test]
fn test_to_grid() {
    let s = "hello".to_string();
    let ge = to_grid(&s, Direction::EE);
    let gs = to_grid(&s, Direction::SS);
    let gne = to_grid(&s, Direction::NE);
    let gse = to_grid(&s, Direction::SE);
    let e: char = EMPTY;
    println!("{:?}", ge);
    assert_eq!(ge, ggd(&vec![vec!['h', 'e', 'l', 'l', 'o']], CharDirection::east()));
    assert_eq!(gs, ggd(&vec![vec!['h'], vec!['e'], vec!['l'], vec!['l'], vec!['o']], CharDirection::north()));
    assert_eq!(
        gne,
        ggd(
            &vec![
                vec![e, e, e, e, 'o'],
                vec![e, e, e, 'l', e],
                vec![e, e, 'l', e, e],
                vec![e, 'e', e, e, e],
                vec!['h', e, e, e, e],
            ],
            CharDirection::north_east()
        )
    );
    assert_eq!(
        gse,
        ggd(
            &vec![
                vec!['h', e, e, e, e],
                vec![e, 'e', e, e, e],
                vec![e, e, 'l', e, e],
                vec![e, e, e, 'l', e],
                vec![e, e, e, e, 'o'],
            ],
            CharDirection::south_east()
        )
    );
}

#[test]
fn to_grid_reverse_directions() {
    let s = "abc".to_string();
    assert_eq!(to_grid(&s, Direction::WW), ggd(&rows(&["cba"]), CharDirection::east()));
    assert_eq!(to_grid(&s, Direction::NN), ggd(&rows(&["c", "b", "a"]), CharDirection::north()));
    assert_eq!(to_grid(&s, Direction::NW), ggd(&rows(&["c  ", " b ", "  a"]), CharDirection::south_east()));
    assert_eq!(to_grid(&s, Direction::SW), ggd(&rows(&["  a", " b ", "c  "]), CharDirection::north_east()));
}

#[test]
fn to_grid_empty_word_is_empty_grid() {
    let g = to_grid(&String::new(), Direction::SE);
    assert_eq!(g.rows(), 0);
    assert_eq!(g.cols(), 0);
}

#[test]
fn mismatching_letter_scores_zero() {
    let board = gg(&rows(&["x  "]));
    let word = gg(&rows(&["ab"]));
    assert!(convolve(&board, &word) == Grid::from_vec(vec![0, 1], 2));
}

#[test]
fn same_letter_same_class_scores_zero() {
    let board = ggd(&rows(&["a  "]), CharDirection::east());
    let across = ggd(&rows(&["ab"]), CharDirection::east());
    let down = ggd(&rows(&["ab"]), CharDirection::north());
    assert!(convolve(&board, &across) == Grid::from_vec(vec![0, 1], 2));
    assert!(convolve(&board, &down) == Grid::from_vec(vec![2, 1], 2));
}

#[test]
fn crossing_reward_is_power_of_two() {
    let board = gg(&rows(&["abc"]));
    let word = ggd(&rows(&["abc"]), CharDirection::north());
    assert!(convolve(&board, &word) == Grid::from_vec(vec![8], 1));
    let two = ggd(&rows(&["ab "]), CharDirection::north());
    assert!(convolve(&board, &two) == Grid::from_vec(vec![4], 1));
}

#[test]
fn oversized_pattern_gives_empty_score_grid() {
    let board = gg(&rows(&["ab", "cd"]));
    let wide = gg(&rows(&["abc"]));
    let tall = gg(&rows(&["a", "b", "c"]));
    let z = convolve(&board, &wide);
    assert_eq!((z.rows(), z.cols()), (0, 0));
    let z = convolve(&board, &tall);
    assert_eq!((z.rows(), z.cols()), (0, 0));
}

#[test]
fn max_list_finds_all_ties() {
    let scores: Grid<u64> = Grid::from_vec(vec![1, 4, 0, 4, 2, 4], 3);
    let (list, max) = max_list(&scores);
    assert_eq!(max, 4);
    assert_eq!(list, vec![(0, 1), (1, 0), (1, 2)]);
}

#[test]
fn max_list_keeps_row_major_order() {
    let ones: Grid<u64> = Grid::from_vec(vec![1, 1, 1, 1], 2);
    assert_eq!(max_list(&ones), (vec![(0, 0), (0, 1), (1, 0), (1, 1)], 1));
}

#[test]
fn max_list_of_zeros_is_empty() {
    let scores: Grid<u64> = Grid::from_vec(vec![0, 0, 0, 0], 2);
    assert_eq!(max_list(&scores), (vec![], 0));
    let empty: Grid<u64> = Grid::new(0, 0);
    assert_eq!(max_list(&empty), (vec![], 0));
}

#[test]
fn combine_with_merges_letters_and_classes() {
    let mut cell = Character::default();
    assert!(cell.is_empty());
    cell.combine_with(&Character { letter: 'q', directions: CharDirection::east() });
    assert_eq!(cell.letter, 'q');
    cell.combine_with(&Character { letter: 'q', directions: CharDirection::north() });
    assert_eq!(cell.letter, 'q');
    assert!(cell.directions.intersects(&CharDirection::east()));
    assert!(cell.directions.intersects(&CharDirection::north()));
    assert!(!cell.directions.intersects(&CharDirection::south_east()));
    assert_eq!(Character::from('z'), Character { letter: 'z', directions: CharDirection::none() });
}

#[test]
fn combine_places_pattern_and_clips_at_edge() {
    let mut board = gg(&rows(&["   ", "   "]));
    let word = to_grid(&"ab".to_string(), Direction::EE);
    combine(&mut board, &word, 1, 2);
    let a = Character { letter: 'a', directions: CharDirection::east() };
    assert_eq!(board[(1, 2)], a);
    assert!(board[(0, 0)].is_empty());
    assert!(board[(1, 1)].is_empty());
}

#[test]
fn merging_twice_changes_nothing() {
    let mut board = gg(&rows(&["c  ", "   ", "   "]));
    let word = to_grid(&"cat".to_string(), Direction::SS);
    combine(&mut board, &word, 0, 0);
    let once = board.clone();
    combine(&mut board, &word, 0, 0);
    assert_eq!(board, once);
    assert_eq!(board[(0, 0)].letter, 'c');
    assert_eq!(board[(2, 0)].letter, 't');
}

#[test]
fn create_keeps_directions_with_placements() {
    let board = gg(&rows(&["cat", "   ", "   "]));
    let mut rng = StdRng::seed_from_u64(3);
    let word = "tub".to_string();
    let dirs = [Direction::EE, Direction::SS, Direction::SE];
    let cands = Candidate::create(&board, &word, &dirs, &mut rng);
    assert_eq!(cands.len(), 2);
    assert_eq!(cands[0].dir, Direction::EE);
    assert_eq!(cands[0].max_placement_value, 1);
    let mut across = cands[0].max_placements.clone();
    across.sort();
    assert_eq!(across, vec![(1, 0), (2, 0)]);
    assert_eq!(cands[1].dir, Direction::SS);
    assert_eq!(cands[1].max_placement_value, 2);
    assert_eq!(cands[1].max_placements, vec![(0, 2)]);
}

#[test]
fn create_drops_directions_without_placements() {
    let board = gg(&rows(&["xxx", "xxx"]));
    let mut rng = StdRng::seed_from_u64(3);
    let cands = Candidate::create(&board, &"ab".to_string(), &[Direction::EE, Direction::SS], &mut rng);
    assert!(cands.is_empty());
}

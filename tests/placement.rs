use grid::Grid;
use rand::rngs::StdRng;
use rand::SeedableRng;
use word_search::cell::{CharDirection, Character, Direction};
use word_search::engine::{place_words, place_words_backtrack_convolution, Board, PlaceError};
use word_search::pattern::{gg, ggd};

fn words(list: &[&str]) -> Vec<String> {
    list.iter().map(|w| w.to_string()).collect()
}

fn letters(g: &Grid<Character>) -> Vec<String> {
    (0..g.rows()).map(|r| (0..g.cols()).map(|c| g[(r, c)].letter).collect()).collect()
}

fn count_letters(g: &Grid<Character>) -> usize {
    g.iter().filter(|c| !c.is_empty()).count()
}

fn reads(g: &Grid<Character>, word: &str, dr: isize, dc: isize) -> bool {
    let chars: Vec<char> = word.chars().collect();
    for r in 0..g.rows() as isize {
        for c in 0..g.cols() as isize {
            let hit = chars.iter().enumerate().all(|(k, ch)| {
                let (x, y) = (r + dr * k as isize, c + dc * k as isize);
                x >= 0 && y >= 0 && g.get(x, y).map(|cell| cell.letter) == Some(*ch)
            });
            if hit {
                return true;
            }
        }
    }
    false
}

#[test]
fn two_words_fit_with_room_to_spare() {
    let mut rng = StdRng::seed_from_u64(1);
    let dirs = vec![Direction::EE, Direction::SS];
    let stack = place_words(5, 5, &words(&["CAT", "DOG"]), &dirs, &mut rng).expect("a board");
    assert_eq!(stack.len(), 3);
    let last = &stack[2].grid;
    assert!(reads(last, "CAT", 0, 1) || reads(last, "CAT", 1, 0));
    assert!(reads(last, "DOG", 0, 1) || reads(last, "DOG", 1, 0));
    assert_eq!(count_letters(last), 6);
    assert_eq!(count_letters(&stack[0].grid), 0);
    assert_eq!(count_letters(&stack[1].grid), 3);
}

#[test]
fn word_longer_than_board_fails_before_search() {
    let mut rng = StdRng::seed_from_u64(1);
    let all = vec![
        Direction::EE,
        Direction::NE,
        Direction::NN,
        Direction::NW,
        Direction::WW,
        Direction::SW,
        Direction::SS,
        Direction::SE,
    ];
    let long = words(&["AAAAAAAAAAAAAAAAAAAAA"]);
    assert_eq!(place_words(5, 5, &long, &all, &mut rng).err(), Some(PlaceError::InputTooLarge));
    assert_eq!(place_words(5, 5, &long, &vec![Direction::EE], &mut rng).err(), Some(PlaceError::InputTooLarge));
}

#[test]
fn horizontal_only_small_board_still_places_both() {
    let mut rng = StdRng::seed_from_u64(5);
    let stack = place_words(3, 3, &words(&["CAT", "COT"]), &vec![Direction::EE], &mut rng).expect("a board");
    let last = &stack[2].grid;
    let rows = letters(last);
    assert!(rows.contains(&"CAT".to_string()));
    assert!(rows.contains(&"COT".to_string()));
}

#[test]
fn crossing_is_preferred_when_directions_differ() {
    let mut rng = StdRng::seed_from_u64(5);
    let board = ggd(&vec![vec!['C', 'A', 'T'], vec![' ', ' ', ' '], vec![' ', ' ', ' ']], CharDirection::east());
    let mut stack = vec![Board { grid: board }];
    let list = words(&["COT"]);
    assert!(place_words_backtrack_convolution(&mut stack, &list, 0, &[Direction::EE, Direction::SS], &mut rng));
    let last = &stack[1].grid;
    assert_eq!(count_letters(last), 5);
    assert_eq!(letters(last), vec!["CAT".to_string(), "O  ".to_string(), "T  ".to_string()]);
}

#[test]
fn exact_fit_without_shared_letters() {
    for seed in 0..8 {
        let mut rng = StdRng::seed_from_u64(seed);
        let stack = place_words(1, 4, &words(&["AB", "CD"]), &vec![Direction::EE], &mut rng).expect("a board");
        let row = &letters(&stack[2].grid)[0];
        assert!(row == "ABCD" || row == "CDAB");
    }
}

#[test]
fn same_seed_same_board() {
    let list = words(&["PUZZLE", "WORD", "GRID", "SEARCH", "LETTER"]);
    let dirs = vec![Direction::EE, Direction::SS, Direction::SE, Direction::NE];
    let mut a = StdRng::seed_from_u64(42);
    let mut b = StdRng::seed_from_u64(42);
    let first = place_words(8, 8, &list, &dirs, &mut a).expect("a board");
    let second = place_words(8, 8, &list, &dirs, &mut b).expect("a board");
    assert_eq!(first.last().unwrap().grid, second.last().unwrap().grid);
}

#[test]
fn word_outside_alphabet_is_invalid() {
    let mut rng = StdRng::seed_from_u64(1);
    let dirs = vec![Direction::EE];
    assert_eq!(place_words(5, 5, &words(&["CAT", ""]), &dirs, &mut rng).err(), Some(PlaceError::InvalidWord));
    assert_eq!(place_words(5, 5, &words(&["A B"]), &dirs, &mut rng).err(), Some(PlaceError::InvalidWord));
    assert_eq!(place_words(5, 5, &words(&["CAT", "d0g"]), &dirs, &mut rng).err(), Some(PlaceError::InvalidWord));
    assert_eq!(place_words(5, 5, &words(&["Cat"]), &dirs, &mut rng).err(), Some(PlaceError::InvalidWord));
}

#[test]
fn no_room_exhausts_search() {
    let mut rng = StdRng::seed_from_u64(1);
    let res = place_words(1, 4, &words(&["AB", "CD", "EF"]), &vec![Direction::EE], &mut rng);
    assert_eq!(res.err(), Some(PlaceError::SearchExhausted));
}

#[test]
fn no_words_gives_empty_board() {
    let mut rng = StdRng::seed_from_u64(1);
    let stack = place_words(2, 3, &Vec::new(), &vec![Direction::EE], &mut rng).expect("a board");
    assert_eq!(stack.len(), 1);
    assert_eq!((stack[0].grid.rows(), stack[0].grid.cols()), (2, 3));
    assert_eq!(count_letters(&stack[0].grid), 0);
}

#[test]
fn failed_search_leaves_stack_as_it_was() {
    let mut rng = StdRng::seed_from_u64(9);
    let board = gg(&vec![vec!['X', 'X', ' '], vec!['X', ' ', ' ']]);
    let mut stack = vec![Board { grid: board.clone() }];
    let list = words(&["AB", "CD"]);
    let placed = place_words_backtrack_convolution(&mut stack, &list, 0, &[Direction::EE], &mut rng);
    assert!(!placed);
    assert_eq!(stack.len(), 1);
    assert_eq!(stack[0].grid, board);
}

#[test]
fn search_from_index_places_only_the_rest() {
    let mut rng = StdRng::seed_from_u64(9);
    let mut stack = vec![Board { grid: gg(&vec![vec![' ', ' '], vec![' ', ' ']]) }];
    let list = words(&["ZZZZZ", "AB"]);
    assert!(place_words_backtrack_convolution(&mut stack, &list, 1, &[Direction::SS], &mut rng));
    assert_eq!(stack.len(), 2);
    assert_eq!(count_letters(&stack[1].grid), 2);
}

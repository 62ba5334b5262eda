use rand::rngs::StdRng;
use rand::SeedableRng;
use word_search::cell::{CharDirection, Character};
use word_search::filler::{fill_empty_cells, replace_dots_with_random_letters};
use word_search::pattern::{gg, ggd};

#[test]
fn empty_cells_take_decoy_of_their_byte() {
    let mut board = ggd(&vec![vec!['Q', ' '], vec![' ', 'R']], CharDirection::east());
    fill_empty_cells(&mut board, &vec![vec![7, 0], vec![27, 200]]);
    assert_eq!(board[(0, 0)], Character { letter: 'Q', directions: CharDirection::east() });
    assert_eq!(board[(0, 1)], Character { letter: 'A', directions: CharDirection::none() });
    assert_eq!(board[(1, 0)], Character { letter: 'B', directions: CharDirection::none() });
    assert_eq!(board[(1, 1)].letter, 'R');
}

#[test]
fn random_fill_keeps_words_and_fills_the_rest() {
    let mut rng = StdRng::seed_from_u64(11);
    let mut board = gg(&vec![vec!['C', 'A', 'T'], vec![' ', ' ', ' ']]);
    replace_dots_with_random_letters(&mut board, &mut rng);
    assert_eq!(board[(0, 0)].letter, 'C');
    assert_eq!(board[(0, 1)].letter, 'A');
    assert_eq!(board[(0, 2)].letter, 'T');
    for c in 0..3 {
        let letter = board[(1, c)].letter;
        assert!(('A'..='Z').contains(&letter));
    }
}

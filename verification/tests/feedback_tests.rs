use duotrigordle::to_char_slice;
use duotrigordle::Color;
use duotrigordle::Guess;
use duotrigordle::IndexOf;
use duotrigordle::Wordle;

fn w(s: &str) -> Vec<char> {
    to_char_slice(s)
}

#[test]
fn to_char_slice_collects_characters() {
    assert_eq!(w("abcde"), vec!['a', 'b', 'c', 'd', 'e']);
    assert_eq!(w(""), Vec::<char>::new());
}

#[test]
fn color_order_is_gray_yellow_green() {
    assert!(Color::Gray < Color::Yellow);
    assert!(Color::Yellow < Color::Green);
}

#[test]
fn index_of_finds_first_position() {
    let word = w("abbca");
    assert_eq!(word.index_of(&'b'), Some(1));
    assert_eq!(word.index_of(&'a'), Some(0));
    assert_eq!(word.index_of(&'z'), None);
}

#[test]
fn indices_finds_every_position() {
    let word = w("abbca");
    assert_eq!(word.indices(&'b'), vec![1, 2]);
    assert_eq!(word.indices(&'a'), vec![0, 4]);
    assert_eq!(word.indices(&'z'), Vec::<usize>::new());
}

#[test]
fn identity_guess_is_all_green() {
    let s = w("crane");
    let g = Guess::new(&s, &s);
    assert_eq!(g.colors_vec().as_slice(), &[Color::Green; 5]);
    assert_eq!(g.word_vec(), &s);
}

#[test]
fn worked_example_with_duplicate_letters() {
    // secret ABBCD, guess BABBD: the secret's single unmatched B is
    // claimed by the leftmost unmatched guess B, the later guess B
    // stays Gray.
    let secret = w("ABBCD");
    let guess = w("BABBD");
    let g = Guess::new(&secret, &guess);
    assert_eq!(
        g.colors_vec().as_slice(),
        &[Color::Yellow, Color::Yellow, Color::Green, Color::Gray, Color::Green]
    );
}

#[test]
fn disjoint_words_are_all_gray() {
    let g = Guess::new(&w("abcde"), &w("fghij"));
    assert_eq!(g.colors_vec().as_slice(), &[Color::Gray; 5]);
}

#[test]
fn surplus_guess_letters_stay_gray() {
    // secret has one e, guess has three: one Green, the rest Gray.
    let g = Guess::new(&w("pleat"), &w("eexez"));
    assert_eq!(
        g.colors_vec().as_slice(),
        &[Color::Yellow, Color::Gray, Color::Gray, Color::Gray, Color::Gray]
    );
}

#[test]
fn secret_is_always_plausible_for_its_own_feedback() {
    let pairs = [
        ("ABBCD", "BABBD"),
        ("crane", "crane"),
        ("aabbb", "bbbaa"),
        ("pleat", "eexez"),
        ("abcde", "fghij"),
    ];
    for (s, g) in pairs {
        let secret = w(s);
        let guess = w(g);
        let fb = Guess::new(&secret, &guess);
        assert!(fb.plausible(&secret), "secret {s} excluded by its own feedback for {g}");
    }
}

#[test]
fn letter_counts_never_exceed_secret() {
    // For every distinct guess letter, Green and Yellow cells are at
    // most the secret's occurrences, and Gray cells are the remainder.
    let secret = w("aabbb");
    let guess = w("ababa");
    let fb = Guess::new(&secret, &guess);
    let colors = fb.colors_vec();
    for letter in ['a', 'b'] {
        let hits = guess
            .iter()
            .zip(colors.iter())
            .filter(|(c, col)| **c == letter && **col != Color::Gray)
            .count();
        let grays = guess
            .iter()
            .zip(colors.iter())
            .filter(|(c, col)| **c == letter && **col == Color::Gray)
            .count();
        let in_secret = secret.iter().filter(|c| **c == letter).count();
        let in_guess = guess.iter().filter(|c| **c == letter).count();
        assert!(hits <= in_secret);
        assert_eq!(grays, in_guess - hits);
    }
}

#[test]
fn green_mismatch_is_implausible() {
    let fb = Guess::new(&w("crane"), &w("crane"));
    assert!(!fb.plausible(&w("brane")));
}

#[test]
fn yellow_letter_must_be_present_elsewhere() {
    // feedback for secret "bxyzw" against guess "abcde": the b is
    // Yellow, so a candidate without any b is ruled out.
    let fb = Guess::new(&w("bxyzw"), &w("abcde"));
    assert!(!fb.plausible(&w("fghij")));
    assert!(fb.plausible(&w("bxyzw")));
}

#[test]
fn gray_letter_count_is_pinned_exactly() {
    // All-gray feedback for guess "aaaaa" means a candidate holds no a.
    let fb = Guess::new(&w("bcdfg"), &w("aaaaa"));
    assert!(!fb.plausible(&w("abcdf")));
    assert!(fb.plausible(&w("bcdfg")));
}

#[test]
fn filter_keeps_exactly_the_consistent_words() {
    let fb = Guess::new(&w("bcdfg"), &w("aaaaa"));
    let words = vec![w("abcdf"), w("bcdfg"), w("aaaaa"), w("hijkl")];
    let kept = fb.filter(words);
    assert_eq!(kept, vec![w("bcdfg"), w("hijkl")]);
}

#[test]
fn board_records_guesses_and_reports_solved() {
    let mut board = Wordle::new(w("crane"));
    assert!(!board.solved());
    let fb = board.guess(&w("trace"));
    assert_eq!(fb.word_vec(), &w("trace"));
    assert!(!board.solved());
    board.guess(&w("crane"));
    assert!(board.solved());
}

#[test]
fn board_filter_applies_whole_history() {
    let mut board = Wordle::new(w("bcdfg"));
    board.guess(&w("aaaaa"));
    let words = vec![w("abcdf"), w("bcdfg"), w("hijkl")];
    let kept = board.filter(words);
    assert_eq!(kept, vec![w("bcdfg"), w("hijkl")]);
}

#[test]
fn board_filter_last_uses_only_newest_feedback() {
    let mut board = Wordle::new(w("bcdfg"));
    let words = vec![w("abcdf"), w("bcdfg"), w("hijkl")];
    // No history: everything passes.
    assert_eq!(board.filter_last(words.clone()), words);
    board.guess(&w("aaaaa"));
    let kept = board.filter_last(words);
    assert_eq!(kept, vec![w("bcdfg"), w("hijkl")]);
}

#[test]
fn board_clear_empties_the_history() {
    let mut board = Wordle::new(w("crane"));
    board.guess(&w("crane"));
    assert!(board.solved());
    board.clear();
    assert!(!board.solved());
}

#[test]
fn board_filter_never_grows_the_list() {
    let mut board = Wordle::new(w("crane"));
    board.guess(&w("trace"));
    board.guess(&w("slate"));
    let words = vec![w("crane"), w("trace"), w("slate"), w("brine")];
    let before = words.len();
    let kept = board.filter(words);
    assert!(kept.len() <= before);
    // The true secret survives its own feedback history.
    assert!(kept.contains(&w("crane")));
}

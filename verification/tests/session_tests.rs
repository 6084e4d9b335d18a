use duotrigordle::to_char_slice;
use duotrigordle::Duotrigordle;

fn w(s: &str) -> Vec<char> {
    to_char_slice(s)
}

/// All 32 five-letter words over the letters a and b. Any feedback in
/// this dictionary pins its secret exactly, so the greedy run always
/// proceeds, whatever order the secrets were drawn in.
fn binary_dict() -> Vec<Vec<char>> {
    let mut v = Vec::new();
    for m in 0..32u32 {
        let mut word = Vec::new();
        for p in 0..5 {
            word.push(if (m >> p) & 1 == 1 { 'b' } else { 'a' });
        }
        v.push(word);
    }
    v
}

/// 32 words over 160 pairwise distinct letters. No guess shares a letter
/// with any other word, so no feedback ever narrows a candidate list
/// below 31 entries and the greedy run always refuses to continue.
fn disjoint_dict() -> Vec<Vec<char>> {
    (0..32u32)
        .map(|i| {
            (0..5u32)
                .map(|p| char::from_u32(0x4E00 + i * 5 + p).unwrap())
                .collect()
        })
        .collect()
}

/// 33 distinct words: the binary dictionary and one word apart from it.
fn binary_dict_plus_one() -> Vec<Vec<char>> {
    let mut v = binary_dict();
    v.push(w("cdefg"));
    v
}

#[test]
fn new_samples_exactly_32_secrets_from_the_dictionary() {
    let dict = binary_dict_plus_one();
    let session = Duotrigordle::new(dict.clone());
    let answers = session.answers();
    assert_eq!(answers.len(), 32);
    for a in &answers {
        assert!(dict.contains(a));
    }
    for i in 0..32 {
        for j in (i + 1)..32 {
            assert_ne!(answers[i], answers[j]);
        }
    }
}

#[test]
fn new_single_fixed_puts_the_fixed_secret_first() {
    let dict = binary_dict();
    let fixed = w("aaaaa");
    let session = Duotrigordle::new_single_fixed(fixed.clone(), dict.clone());
    let answers = session.answers();
    assert_eq!(answers.len(), 32);
    assert_eq!(answers[0], fixed);
    for i in 1..32 {
        assert_ne!(answers[i], fixed);
        assert!(dict.contains(&answers[i]));
    }
}

#[test]
fn guess_marks_matching_board_solved_and_records_twice() {
    let fixed = w("aaaaa");
    let mut session = Duotrigordle::new_single_fixed(fixed.clone(), binary_dict());
    assert!(session.solved().iter().all(|s| !s));
    session.guess(&fixed);
    assert!(session.solved()[0]);
    // The solved board records the guess in both phases, every other
    // board once.
    assert_eq!(session.guesses(0).len(), 2);
    for i in 1..32 {
        assert_eq!(session.guesses(i).len(), 1);
    }
}

#[test]
fn guess_freezes_a_solved_board_and_narrows_the_rest() {
    let fixed = w("aaaaa");
    let mut session = Duotrigordle::new_single_fixed(fixed.clone(), binary_dict());
    session.guess(&fixed);
    // In the binary dictionary any feedback pins the secret exactly.
    let frozen: Vec<Vec<char>> = session.candidates(0).clone();
    assert_eq!(frozen, vec![fixed.clone()]);
    for i in 1..32 {
        assert_eq!(session.candidates(i).len(), 1);
    }
    // A further guess leaves the solved board's list untouched.
    session.guess(&w("bbbbb"));
    assert_eq!(session.candidates(0), &frozen);
}

#[test]
fn candidate_lists_never_grow() {
    let mut session = Duotrigordle::new(binary_dict());
    let mut sizes: Vec<usize> = (0..32).map(|i| session.candidates(i).len()).collect();
    for word in [w("aaaaa"), w("ababa"), w("bbbbb")] {
        session.guess(&word);
        for i in 0..32 {
            let now = session.candidates(i).len();
            assert!(now <= sizes[i]);
            sizes[i] = now;
        }
    }
}

#[test]
fn reset_restores_the_constructed_state() {
    let dict = binary_dict();
    let mut session = Duotrigordle::new(dict.clone());
    let answers_before = session.answers();
    session.guess(&w("aaaaa"));
    session.guess(&w("babab"));
    session.reset();
    assert_eq!(session.answers(), answers_before);
    assert!(session.solved().iter().all(|s| !s));
    for i in 0..32 {
        assert_eq!(session.guesses(i).len(), 0);
        assert_eq!(session.candidates(i), &dict);
    }
}

#[test]
fn greedy_run_succeeds_on_a_separating_dictionary() {
    let fixed = w("aaaaa");
    let mut session = Duotrigordle::new_single_fixed(fixed.clone(), binary_dict());
    let result = session.solveable_from(0);
    assert_eq!(result, Some(fixed));
}

#[test]
fn greedy_run_fails_when_no_list_collapses() {
    let dict = disjoint_dict();
    let fixed = dict[0].clone();
    let mut session = Duotrigordle::new_single_fixed(fixed, dict);
    assert_eq!(session.solveable_from(0), None);
}

#[test]
fn solveable_collects_every_succeeding_start() {
    let mut session = Duotrigordle::new(binary_dict());
    let answers = session.answers();
    let (any, starts) = session.solveable();
    assert!(any);
    assert_eq!(starts, answers);
}

#[test]
fn solveable_reports_failure_with_no_succeeding_start() {
    let mut session = Duotrigordle::new(disjoint_dict());
    let (any, starts) = session.solveable();
    assert!(!any);
    assert!(starts.is_empty());
}

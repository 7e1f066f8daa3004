use minigames::wordle::{Game, GuessOutcome, YellowGuess};

fn dict() -> Vec<String> {
    ["crane", "slate", "trace", "apple", "caret", "hello"].iter().map(|s| s.to_string()).collect()
}

#[test]
fn fresh_game() {
    let g = Game::test("crane".to_string(), dict());
    assert_eq!(g.correct, "_____");
    assert!(g.previous_guesses.is_empty());
    assert!(g.missing.is_empty());
    assert!(g.yellow.is_empty());
    assert!(!g.over);
}

#[test]
fn random_word_comes_from_the_dictionary() {
    for _ in 0..20 {
        let g = Game::random(dict());
        assert!(dict().contains(&g.word));
        assert_eq!(g.correct, "_____");
    }
    let g = Game::random(vec!["apple".to_string()]);
    assert_eq!(g.word, "apple");
}

#[test]
fn wrong_length_and_unknown_words_are_refused() {
    let mut g = Game::test("crane".to_string(), dict());
    assert_eq!(g.guess("cran".to_string()), GuessOutcome::WrongLength);
    assert_eq!(g.guess("abcde".to_string()), GuessOutcome::UnknownWord);
    assert!(g.previous_guesses.is_empty());
    assert_eq!(g.correct, "_____");
}

#[test]
fn correct_guess_wins() {
    let mut g = Game::test("crane".to_string(), dict());
    assert_eq!(g.guess("crane".to_string()), GuessOutcome::Accepted);
    assert!(g.over);
    assert_eq!(g.correct, "crane");
    assert_eq!(g.previous_guesses, vec!["crane".to_string()]);
}

#[test]
fn guess_marks_hits_misplaced_and_missing_letters() {
    let mut g = Game::test("crane".to_string(), dict());
    assert_eq!(g.guess("trace".to_string()), GuessOutcome::Accepted);
    // t-r-a-c-e against c-r-a-n-e
    assert_eq!(g.correct, "_ra_e");
    assert_eq!(g.yellow, vec![YellowGuess(3, 'c')]);
    assert_eq!(g.missing, vec!['t']);
    assert!(!g.over);
    assert_eq!(g.guess("slate".to_string()), GuessOutcome::Accepted);
    assert_eq!(g.correct, "_ra_e");
    assert_eq!(g.missing, vec!['t', 's', 'l']);
    assert_eq!(g.previous_guesses.len(), 2);
}

#[test]
fn missing_letters_are_listed_once() {
    let mut g = Game::test("crane".to_string(), dict());
    g.guess("hello".to_string());
    assert_eq!(g.missing, vec!['h', 'l', 'o']);
    assert_eq!(g.yellow, vec![YellowGuess(1, 'e')]);
    assert_eq!(g.correct, "_____");
}

#[test]
fn pattern_spelling_the_word_ends_the_game() {
    let mut g = Game::test("caret".to_string(), dict());
    g.correct = "care_".to_string();
    assert_eq!(g.guess("slate".to_string()), GuessOutcome::Accepted);
    assert_eq!(g.correct, "care_");
    assert!(!g.over);
    g.correct = "_aret".to_string();
    g.guess("crane".to_string());
    assert_eq!(g.correct, "caret");
    assert!(g.over);
}

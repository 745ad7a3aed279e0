use deet::hangman::{reveal_letter, vec2str, Game, NUM_INCORRECT_GUESSES};

#[test]
fn vec2str_joins_characters() {
    assert_eq!(vec2str(&vec!['r', 'u', 's', 't']), "rust");
    assert_eq!(vec2str(&Vec::new()), "");
}

#[test]
fn reveal_takes_first_hidden_occurrence() {
    let secret = vec!['l', 'o', 'o', 'p'];
    let mut shown = vec!['-'; 4];
    assert!(reveal_letter(&secret, &mut shown, 'o'));
    assert_eq!(shown, vec!['-', 'o', '-', '-']);
    assert!(reveal_letter(&secret, &mut shown, 'o'));
    assert_eq!(shown, vec!['-', 'o', 'o', '-']);
    assert!(!reveal_letter(&secret, &mut shown, 'o'));
    assert!(!reveal_letter(&secret, &mut shown, 'z'));
    assert_eq!(shown, vec!['-', 'o', 'o', '-']);
}

#[test]
fn game_is_won_or_lost() {
    let mut g = Game::new(vec!['a', 'b']);
    assert_eq!(g.word_so_far(), "--");
    assert!(g.guess('b'));
    assert_eq!(g.word_so_far(), "-b");
    assert!(!g.guess('x'));
    assert_eq!(g.guesses_left(), NUM_INCORRECT_GUESSES - 1);
    assert!(g.guess('a'));
    assert!(g.is_won());
    assert_eq!(g.guessed_letters(), "bxa");

    let mut g = Game::new(vec!['a']);
    for c in ['q', 'w', 'e', 'r', 't'] {
        assert!(!g.is_lost());
        assert!(!g.guess(c));
    }
    assert!(g.is_lost());
    assert!(!g.is_won());
}

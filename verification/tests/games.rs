use hw::hangman::{pick_word_line, GuessOutcome, Hangman, MAX_TRIES, WORD_LINE_CHOICES};
use hw::shell::{is_exit, parse_command, split_pipeline};

fn shown(game: &Hangman) -> String {
    game.guess_chars().iter().collect()
}

#[test]
fn a_new_game_hides_every_letter() {
    let game = Hangman::new("краб");
    assert_eq!(shown(&game), "____");
    assert_eq!(game.tries_left(), MAX_TRIES);
    assert!(!game.is_won());
    assert!(!game.is_over());
}

#[test]
fn revealing_every_letter_wins() {
    let mut game = Hangman::new("rust");
    assert_eq!(game.play("r\n"), GuessOutcome::Revealed);
    assert_eq!(shown(&game), "r___");
    assert_eq!(game.play("u"), GuessOutcome::Revealed);
    assert_eq!(game.play("s\n"), GuessOutcome::Revealed);
    assert!(!game.is_won());
    assert_eq!(game.play("t\n"), GuessOutcome::Revealed);
    assert_eq!(shown(&game), "rust");
    assert!(game.is_won());
    assert!(game.is_over());
    assert_eq!(game.tries_left(), MAX_TRIES);
}

#[test]
fn a_letter_is_revealed_everywhere() {
    let mut game = Hangman::new("banana");
    assert_eq!(game.play("a\n"), GuessOutcome::Revealed);
    assert_eq!(shown(&game), "_a_a_a");
    assert_eq!(game.play("a\n"), GuessOutcome::Revealed);
    assert_eq!(shown(&game), "_a_a_a");
}

#[test]
fn wrong_letters_cost_a_try_once() {
    let mut game = Hangman::new("cat");
    assert_eq!(game.play("z\n"), GuessOutcome::NotFound);
    assert_eq!(game.tries_left(), MAX_TRIES - 1);
    assert_eq!(game.play("z\n"), GuessOutcome::AlreadyEntered);
    assert_eq!(game.tries_left(), MAX_TRIES - 1);
    for letter in ["q", "w", "e", "r"] {
        assert_eq!(game.play(letter), GuessOutcome::NotFound);
    }
    assert_eq!(game.tries_left(), 0);
    assert!(game.is_over());
    assert!(!game.is_won());
    assert_eq!(shown(&game), "___");
}

#[test]
fn input_must_be_one_character() {
    let mut game = Hangman::new("cat");
    assert_eq!(game.play("\n"), GuessOutcome::InvalidInput);
    assert_eq!(game.play("ca\n"), GuessOutcome::InvalidInput);
    assert_eq!(game.play("c a"), GuessOutcome::InvalidInput);
    assert_eq!(game.tries_left(), MAX_TRIES);
    // Surrounding whitespace is ignored for the check, but the letter
    // played is the line's first character.
    assert_eq!(game.play(" c\n"), GuessOutcome::NotFound);
    assert_eq!(shown(&game), "___");
    assert_eq!(game.play("\u{a0}c"), GuessOutcome::NotFound);
    assert_eq!(game.tries_left(), MAX_TRIES - 2);
}

#[test]
fn word_line_is_one_of_the_first_twenty() {
    for _ in 0..200 {
        assert!(pick_word_line() < WORD_LINE_CHOICES);
    }
}

#[test]
fn exit_is_recognised_without_surrounding_whitespace() {
    assert!(is_exit("exit"));
    assert!(is_exit("  exit\n"));
    assert!(!is_exit("exit now"));
    assert!(!is_exit("exi"));
    assert!(!is_exit(""));
}

#[test]
fn pipeline_splits_at_the_first_bar() {
    assert_eq!(split_pipeline("ls -l | wc -l\n"), vec!["ls -l ", " wc -l"]);
    assert_eq!(split_pipeline("a|b|c"), vec!["a", "b|c"]);
    assert_eq!(split_pipeline("  echo hi  "), vec!["echo hi"]);
    assert_eq!(split_pipeline(""), vec![""]);
    assert_eq!(split_pipeline("|"), vec!["", ""]);
}

#[test]
fn command_splits_into_name_and_arguments() {
    let (name, args) = parse_command(" ls  -l\t/tmp ").unwrap();
    assert_eq!(name, "ls");
    assert_eq!(args, vec!["-l", "/tmp"]);

    let (name, args) = parse_command("wc").unwrap();
    assert_eq!(name, "wc");
    assert!(args.is_empty());

    assert!(parse_command("").is_none());
    assert!(parse_command(" \t ").is_none());

    let (name, args) = parse_command("echo \u{a0}x\u{a0}").unwrap();
    assert_eq!(name, "echo");
    assert_eq!(args, vec!["x"]);
}

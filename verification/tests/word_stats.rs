use hw::word_count::process_input;

#[test]
fn empty_input_returns_zero_counts() {
    let empty_input = "".as_bytes();

    let result = process_input(empty_input);

    assert_eq!(result.line_count, 0);
    assert_eq!(result.word_count, 0);
    assert_eq!(result.bytes_count, 0);
}

#[test]
fn single_word_has_no_newlines() {
    let empty_input = "hello".as_bytes();

    let result = process_input(empty_input);

    assert_eq!(result.line_count, 0);
    assert_eq!(result.word_count, 1);
    assert_eq!(result.bytes_count, 5);
}

#[test]
fn single_word_with_newline_counts_line() {
    let empty_input = "hello\n".as_bytes();

    let result = process_input(empty_input);

    assert_eq!(result.line_count, 1);
    assert_eq!(result.word_count, 1);
    assert_eq!(result.bytes_count, 6);
}

#[test]
fn two_words_with_newline_counts_both() {
    let empty_input = "hello rust\n".as_bytes();

    let result = process_input(empty_input);

    assert_eq!(result.line_count, 1);
    assert_eq!(result.word_count, 2);
    assert_eq!(result.bytes_count, 11);
}

#[test]
fn leading_trailing_whitespace_is_ignored() {
    let empty_input = " hello rust \n".as_bytes();

    let result = process_input(empty_input);

    assert_eq!(result.line_count, 1);
    assert_eq!(result.word_count, 2);
    assert_eq!(result.bytes_count, 13);
}

#[test]
fn tabs_and_newlines_split_words() {
    let empty_input = "a\tb\nc".as_bytes();

    let result = process_input(empty_input);

    assert_eq!(result.line_count, 1);
    assert_eq!(result.word_count, 3);
    assert_eq!(result.bytes_count, 5);
}

#[test]
fn other_ascii_whitespace_splits_words_but_vertical_tab_does_not() {
    let result = process_input(b"a\rb\x0Cc\x0Bd\n\n");

    assert_eq!(result.line_count, 2);
    assert_eq!(result.word_count, 3);
    assert_eq!(result.bytes_count, 9);
}

#[test]
fn only_whitespace_has_no_words() {
    let result = process_input(b" \t\n \n");

    assert_eq!(result.line_count, 2);
    assert_eq!(result.word_count, 0);
    assert_eq!(result.bytes_count, 5);
}

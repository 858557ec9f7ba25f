use hw::word_sort::{merge, merge_sort};

#[test]
fn already_sorted_input_stays_sorted() {
    let input: Vec<&str> = "a b c".split(" ").collect();

    let sorted = merge_sort(&input, 0, input.len() - 1);

    assert_eq!(sorted, vec!["a", "b", "c"]);
}

#[test]
fn reversed_input_gets_sorted() {
    let input: Vec<&str> = "e d c b a".split(" ").collect();

    let sorted = merge_sort(&input, 0, input.len() - 1);

    assert_eq!(sorted, vec!["a", "b", "c", "d", "e"]);
}

#[test]
fn uppercase_comes_before_lowercase() {
    let input: Vec<&str> = "A a A a A a".split(" ").collect();

    let sorted = merge_sort(&input, 0, input.len() - 1);

    assert_eq!(sorted, vec!["A", "A", "A", "a", "a", "a"]);
}

#[test]
fn words_with_punctuation_sorted_alphabetically() {
    let input: Vec<&str> = "hello, world, this is a programm".split(" ").collect();

    let sorted = merge_sort(&input, 0, input.len() - 1);

    assert_eq!(
        sorted,
        vec!["a", "hello,", "is", "programm", "this", "world,"]
    );
}

#[test]
fn single_word_and_reversed_bounds_give_one_word() {
    let input = vec!["zeta", "alpha", "mid"];

    assert_eq!(merge_sort(&input, 1, 1), vec!["alpha"]);
    assert_eq!(merge_sort(&input, 2, 0), vec!["mid"]);
    assert_eq!(merge_sort(&input, 1, 2), vec!["alpha", "mid"]);
}

#[test]
fn prefixes_and_non_ascii_words_sort_as_strings_do() {
    let input = vec!["éa", "ab", "a", "zz", "", "abc", "Ω", "é"];

    let sorted = merge_sort(&input, 0, input.len() - 1);

    let mut expected: Vec<String> = input.iter().map(|s| s.to_string()).collect();
    expected.sort();
    assert_eq!(sorted, expected);
    assert_eq!(sorted, vec!["", "a", "ab", "abc", "zz", "é", "éa", "Ω"]);
}

#[test]
fn merge_interleaves_sorted_vectors() {
    let left = vec!["a".to_string(), "c".to_string(), "e".to_string()];
    let right = vec!["b".to_string(), "c".to_string(), "d".to_string(), "f".to_string()];

    assert_eq!(merge(left, right), vec!["a", "b", "c", "c", "d", "e", "f"]);
}

#[test]
fn merge_of_unsorted_vectors_takes_smaller_heads() {
    let left = vec!["d".to_string(), "a".to_string()];
    let right = vec!["b".to_string(), "e".to_string()];

    assert_eq!(merge(left, right), vec!["b", "d", "a", "e"]);
    assert_eq!(merge(Vec::new(), vec!["x".to_string()]), vec!["x"]);
    assert_eq!(merge(vec!["y".to_string()], Vec::new()), vec!["y"]);
}

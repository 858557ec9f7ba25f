use hw::byte_add::{
    add_in_mode, add_u8_checked, add_u8_saturating, add_u8_wrapping, parse_mode, parse_u8,
    read_two_bytes, AddMode, ByteInputError,
};
use hw::byte_count::{process_input, MAX_READ_LIMIT_BYTES};

#[test]
fn emoji_has_four_bytes() {
    let crab_emoji = "🦀".as_bytes();

    let len = process_input(crab_emoji);

    assert_eq!(len, 4);
}

#[test]
fn binary_input_returns_byte_count() {
    let fake_input: &[u8] = &[0, 255, 10, 0, 42];

    let len = process_input(fake_input);

    assert_eq!(len, 5);
}

#[test]
fn input_beyond_the_read_limit_is_not_counted() {
    let limit = MAX_READ_LIMIT_BYTES as usize;
    let big = vec![7u8; limit + 3];

    assert_eq!(process_input(&big), limit);
    assert_eq!(process_input(&big[..limit]), limit);
    assert_eq!(process_input(&[]), 0);
}

#[test]
fn checked_add() {
    assert_eq!(add_u8_checked(10, 20), Some(30));
    assert_eq!(add_u8_checked(255, 1), None);
}

#[test]
fn wrapping_add() {
    assert_eq!(add_u8_wrapping(10, 20), 30);
    assert_eq!(add_u8_wrapping(255, 1), 0);
}

#[test]
fn saturating_add() {
    assert_eq!(add_u8_saturating(10, 20), 30);
    assert_eq!(add_u8_saturating(255, 1), 255);
}

#[test]
fn additions_at_the_edges() {
    assert_eq!(add_u8_checked(255, 0), Some(255));
    assert_eq!(add_u8_checked(128, 128), None);
    assert_eq!(add_u8_wrapping(200, 100), 44);
    assert_eq!(add_u8_wrapping(255, 255), 254);
    assert_eq!(add_u8_saturating(200, 100), 255);
    assert_eq!(add_u8_saturating(0, 0), 0);
}

#[test]
fn additions_agree_on_every_pair() {
    for a in 0..=255u8 {
        for b in 0..=255u8 {
            let sum = a as u16 + b as u16;
            match add_u8_checked(a, b) {
                Some(s) => {
                    assert_eq!(s as u16, sum);
                    assert_eq!(add_u8_wrapping(a, b), s);
                    assert_eq!(add_u8_saturating(a, b), s);
                }
                None => {
                    assert!(sum > 255);
                    assert_eq!(add_u8_saturating(a, b), 255);
                    assert_eq!(add_u8_wrapping(a, b) as u16, sum - 256);
                }
            }
        }
    }
}

#[test]
fn bytes_parse_as_u8_from_str_does() {
    for text in ["0", "7", "+7", "007", "255", "256", "1000", "", "+", "-1", "1a", " 1", "٣", "+-1"] {
        assert_eq!(parse_u8(text), text.parse::<u8>().ok(), "{text:?}");
    }
    for n in 0..=300u32 {
        let text = n.to_string();
        assert_eq!(parse_u8(&text), text.parse::<u8>().ok());
    }
}

#[test]
fn two_bytes_are_read_from_the_first_two_fields() {
    assert_eq!(read_two_bytes("10 20\n"), Ok((10, 20)));
    assert_eq!(read_two_bytes("  1\t2 junk"), Ok((1, 2)));
    assert_eq!(read_two_bytes("3\u{2003}4"), Ok((3, 4)));
    assert_eq!(read_two_bytes(""), Err(ByteInputError::MissingNumber));
    assert_eq!(read_two_bytes("5\n"), Err(ByteInputError::MissingNumber));
    assert_eq!(read_two_bytes("x"), Err(ByteInputError::InvalidNumber));
    assert_eq!(read_two_bytes("256 1"), Err(ByteInputError::InvalidNumber));
    assert_eq!(read_two_bytes("1 -1"), Err(ByteInputError::InvalidNumber));
}

#[test]
fn modes_are_named_and_add_as_their_functions() {
    assert_eq!(parse_mode("checked"), Some(AddMode::Checked));
    assert_eq!(parse_mode("wrapped"), Some(AddMode::Wrapped));
    assert_eq!(parse_mode("saturated"), Some(AddMode::Saturated));
    assert_eq!(parse_mode("Checked"), None);
    assert_eq!(parse_mode(""), None);

    assert_eq!(add_in_mode(AddMode::Checked, 255, 1), None);
    assert_eq!(add_in_mode(AddMode::Checked, 10, 20), Some(30));
    assert_eq!(add_in_mode(AddMode::Wrapped, 255, 1), Some(0));
    assert_eq!(add_in_mode(AddMode::Saturated, 255, 1), Some(255));
}

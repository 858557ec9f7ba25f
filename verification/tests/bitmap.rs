use hw::pixels::{invert_bitmap_8x8, parse_bitmap_8x8, render_bitmap_8x8};

#[test]
fn parse_single_pixel_top_left() {
    let image = [
        "#.......", ".#......", "..#.....", "...#....", "....#...", ".....#..", "......#.",
        ".......#",
    ];
    let bytes = parse_bitmap_8x8(image);

    assert_eq!(bytes[0], 0b10000000);
    assert_eq!(bytes[7], 0b00000001);
}

#[test]
fn parse_all_dots_returns_zeros() {
    let image = [
        "........", "........", "........", "........", "........", "........", "........",
        "........",
    ];
    let bytes = parse_bitmap_8x8(image);

    assert_eq!(bytes, [0u8; 8]);
}

#[test]
fn parse_all_hashes_returns_ones() {
    let image = [
        "########", "########", "########", "########", "########", "########", "########",
        "########",
    ];
    let bytes = parse_bitmap_8x8(image);

    assert_eq!(bytes, [0xFFu8; 8]);
}

#[test]
fn parse_and_render_are_inverse() {
    let image = [
        "..####..", ".#....#.", "#.#..#.#", "#..##..#", "#......#", "#.#..#.#", ".#....#.",
        "..####..",
    ];
    let bytes = parse_bitmap_8x8(image);
    let rendered = render_bitmap_8x8(bytes);

    assert_eq!(rendered, image);
}

#[test]
fn invert_flips_all_bits() {
    let bytes: [u8; 8] = [
        0b10101010, 0b01010101, 0b11110000, 0b00001111, 0xFF, 0x00, 0b11001100, 0b00110011,
    ];
    let inverted = invert_bitmap_8x8(bytes);

    assert_eq!(
        inverted,
        [
            0b01010101, 0b10101010, 0b00001111, 0b11110000, 0x00, 0xFF, 0b00110011, 0b11001100
        ]
    );
}

#[test]
fn invert_twice_returns_original() {
    let bytes: [u8; 8] = [0x0F, 0xF0, 0xAA, 0x55, 0x12, 0x34, 0x56, 0x78];
    let double_inverted = invert_bitmap_8x8(invert_bitmap_8x8(bytes));

    assert_eq!(double_inverted, bytes);
}

#[test]
fn short_long_and_other_characters_parse_as_dark() {
    let image = ["#", "", "#x#", "........xy", "ab#cd#ef", "é#", "#.......x", "##"];
    let bytes = parse_bitmap_8x8(image);

    assert_eq!(bytes, [0x80, 0x00, 0xA0, 0x00, 0x24, 0x40, 0x80, 0xC0]);
}

#[test]
fn render_then_parse_gives_every_byte_back() {
    for b in 0..=255u8 {
        let rendered = render_bitmap_8x8([b; 8]);
        assert_eq!(rendered[0].chars().count(), 8);
        let lines: Vec<&str> = rendered.iter().map(|s| s.as_str()).collect();
        let image = [
            lines[0], lines[1], lines[2], lines[3], lines[4], lines[5], lines[6], lines[7],
        ];
        assert_eq!(parse_bitmap_8x8(image), [b; 8]);
    }
}

#[test]
fn render_draws_most_significant_bit_first() {
    let rendered = render_bitmap_8x8([0x81, 0x00, 0xFF, 0x0F, 0x10, 0x02, 0x80, 0x01]);

    assert_eq!(
        rendered,
        ["#......#", "........", "########", "....####", "...#....", "......#.", "#.......", ".......#"]
    );
}

#[test]
fn invert_turns_lit_pixels_dark() {
    let rendered = render_bitmap_8x8(invert_bitmap_8x8([0x81, 0, 0xFF, 0x0F, 0, 0, 0, 0]));

    assert_eq!(rendered[0], ".######.");
    assert_eq!(rendered[1], "########");
    assert_eq!(rendered[2], "........");
    assert_eq!(rendered[3], "####....");
}

//! An 8x8 monochrome bitmap: text rows of `#` (lit) and `.` (dark) pixels,
//! one byte per row, the leftmost pixel in the most significant bit.
use vstd::prelude::*;

verus! {

/// The bit of a row byte that holds the pixel in column `k` (0 is leftmost).
pub open spec fn pixel_mask(k: int) -> u8 {
    1u8 << ((7 - k) as u8)
}

/// Whether the pixel in column `k` of the row byte `b` is lit.
pub open spec fn is_lit(b: u8, k: int) -> bool {
    b & pixel_mask(k) != 0
}

/// The bit that column `k` of a text row contributes to its byte.
pub open spec fn column_bit(line: Seq<char>, k: int) -> u8 {
    if 0 <= k < 8 && k < line.len() && line[k] == '#' {
        pixel_mask(k)
    } else {
        0u8
    }
}

/// The byte of the first `n` columns of a text row.
pub open spec fn row_prefix(line: Seq<char>, n: nat) -> u8
    decreases n,
{
    if n == 0 {
        0u8
    } else {
        row_prefix(line, (n - 1) as nat) | column_bit(line, n - 1)
    }
}

/// The byte of a text row: bit `7 - k` is set exactly where column `k < 8`
/// holds a `#`; every other character is a dark pixel.
pub open spec fn parse_row(line: Seq<char>) -> u8 {
    row_prefix(line, 8)
}

/// The text of a row byte: eight characters, `#` for a lit pixel, `.` for a dark one.
pub open spec fn render_row(b: u8) -> Seq<char> {
    Seq::new(8, |k: int| if is_lit(b, k) { '#' } else { '.' })
}

/// A row that can be parsed: no `#` beyond the eighth column.
pub open spec fn parsable_row(line: Seq<char>) -> bool {
    forall|k: int| 8 <= k < line.len() ==> line[k] != '#'
}

/// A row in the exact text form: eight characters, each `#` or `.`.
pub open spec fn well_formed_row(line: Seq<char>) -> bool {
    line.len() == 8 && forall|k: int| 0 <= k < 8 ==> (line[k] == '#' || line[k] == '.')
}

proof fn lemma_masks()
    ensures
        pixel_mask(0) == 0x80u8,
        pixel_mask(1) == 0x40u8,
        pixel_mask(2) == 0x20u8,
        pixel_mask(3) == 0x10u8,
        pixel_mask(4) == 0x08u8,
        pixel_mask(5) == 0x04u8,
        pixel_mask(6) == 0x02u8,
        pixel_mask(7) == 0x01u8,
{
    assert(1u8 << 7u8 == 0x80u8) by (bit_vector);
    assert(1u8 << 6u8 == 0x40u8) by (bit_vector);
    assert(1u8 << 5u8 == 0x20u8) by (bit_vector);
    assert(1u8 << 4u8 == 0x10u8) by (bit_vector);
    assert(1u8 << 3u8 == 0x08u8) by (bit_vector);
    assert(1u8 << 2u8 == 0x04u8) by (bit_vector);
    assert(1u8 << 1u8 == 0x02u8) by (bit_vector);
    assert(1u8 << 0u8 == 0x01u8) by (bit_vector);
}

proof fn lemma_parse_row_unfold(line: Seq<char>)
    ensures
        parse_row(line) == column_bit(line, 0) | column_bit(line, 1) | column_bit(line, 2)
            | column_bit(line, 3) | column_bit(line, 4) | column_bit(line, 5) | column_bit(
            line,
            6,
        ) | column_bit(line, 7),
{
    reveal_with_fuel(row_prefix, 9);
    let c0 = column_bit(line, 0);
    assert(0u8 | c0 == c0) by (bit_vector);
}

/// Columns past the eighth or past the end of a row add nothing to its byte.
proof fn lemma_row_prefix_tail(line: Seq<char>, m: nat, n: nat)
    requires
        m <= n,
        m >= 8 || m >= line.len(),
    ensures
        row_prefix(line, n) == row_prefix(line, m),
    decreases n,
{
    if n > m {
        lemma_row_prefix_tail(line, m, (n - 1) as nat);
        let p = row_prefix(line, (n - 1) as nat);
        assert(p | 0u8 == p) by (bit_vector);
    }
}

fn parse_line(line: &str) -> (res: u8)
    requires
        parsable_row(line@),
    ensures
        res == parse_row(line@),
{
    let len = line.unicode_len();
    let mut res: u8 = 0;
    let mut j: usize = 0;
    while j < len
        invariant
            len == line@.len(),
            j <= len,
            parsable_row(line@),
            j <= 8 ==> res == row_prefix(line@, j as nat),
            j > 8 ==> res == parse_row(line@),
        decreases len - j,
    {
        let c = line.get_char(j);
        if c == '#' {
            assert(j < 8);
            let shift: u8 = (7 - j) as u8;
            res = res | (1u8 << shift);
        } else {
            proof {
                assert(res | 0u8 == res) by (bit_vector);
            }
        }
        j = j + 1;
        proof {
            if j > 8 {
                lemma_row_prefix_tail(line@, 8, j as nat);
            }
        }
    }
    proof {
        if j <= 8 {
            lemma_row_prefix_tail(line@, j as nat, 8);
        }
    }
    res
}

/// Parses eight text rows into eight row bytes: in row `i`, a `#` in column
/// `k` sets bit `7 - k` of byte `i`; any other character leaves it clear.
pub fn parse_bitmap_8x8(lines: [&str; 8]) -> (res: [u8; 8])
    requires
        forall|i: int| 0 <= i < 8 ==> parsable_row(#[trigger] lines[i]@),
    ensures
        forall|i: int| 0 <= i < 8 ==> #[trigger] res[i] == parse_row(lines[i]@),
        forall|i: int, k: int|
            0 <= i < 8 && 0 <= k < 8 ==> (#[trigger] is_lit(res[i], k) <==> (k < lines[i]@.len()
                && lines[i]@[k] == '#')),
{
    let mut res: [u8; 8] = [0; 8];
    let mut i: usize = 0;
    while i < 8
        invariant
            0 <= i <= 8,
            forall|k: int| 0 <= k < 8 ==> parsable_row(#[trigger] lines[k]@),
            forall|k: int| 0 <= k < i ==> #[trigger] res[k] == parse_row(lines[k]@),
        decreases 8 - i,
    {
        let b = parse_line(lines[i]);
        res[i] = b;
        i = i + 1;
    }
    assert forall|i: int, k: int| 0 <= i < 8 && 0 <= k < 8 implies (#[trigger] is_lit(res[i], k)
        <==> (k < lines[i]@.len() && lines[i]@[k] == '#')) by {
        lemma_row_pixels(lines[i]@);
    }
    res
}

fn render_line(b: u8) -> (res: String)
    ensures
        res@ == render_row(b),
{
    let mut res = String::new();
    let mut k: usize = 0;
    while k < 8
        invariant
            k <= 8,
            res@ == render_row(b).take(k as int),
        decreases 8 - k,
    {
        let shift: u8 = (7 - k) as u8;
        proof {
            reveal_strlit("#");
            reveal_strlit(".");
        }
        if b & (1u8 << shift) != 0 {
            res.append("#");
        } else {
            res.append(".");
        }
        assert(res@ =~= render_row(b).take(k + 1));
        k = k + 1;
    }
    assert(res@ =~= render_row(b));
    res
}

/// Renders eight row bytes as eight text rows of eight characters: column
/// `k` of row `i` is `#` when bit `7 - k` of byte `i` is set, `.` otherwise.
pub fn render_bitmap_8x8(bytes: [u8; 8]) -> (res: [String; 8])
    ensures
        forall|i: int| 0 <= i < 8 ==> #[trigger] res[i]@ == render_row(bytes[i]),
{
    let r0 = render_line(bytes[0]);
    let r1 = render_line(bytes[1]);
    let r2 = render_line(bytes[2]);
    let r3 = render_line(bytes[3]);
    let r4 = render_line(bytes[4]);
    let r5 = render_line(bytes[5]);
    let r6 = render_line(bytes[6]);
    let r7 = render_line(bytes[7]);
    [r0, r1, r2, r3, r4, r5, r6, r7]
}

/// Inverts every pixel: each row byte has all of its bits flipped.
pub fn invert_bitmap_8x8(bytes: [u8; 8]) -> (res: [u8; 8])
    ensures
        forall|i: int| 0 <= i < 8 ==> #[trigger] res[i] == bytes[i] ^ 0xFFu8,
        forall|i: int, k: int|
            0 <= i < 8 && 0 <= k < 8 ==> (#[trigger] is_lit(res[i], k) <==> !is_lit(
                bytes[i],
                k,
            )),
{
    let mut res: [u8; 8] = bytes;
    let mut i: usize = 0;
    while i < 8
        invariant
            0 <= i <= 8,
            forall|j: int| 0 <= j < i ==> #[trigger] res[j] == bytes[j] ^ 0xFFu8,
        decreases 8 - i,
    {
        res[i] = bytes[i] ^ 0xFF;
        i = i + 1;
    }
    assert forall|i: int, k: int| 0 <= i < 8 && 0 <= k < 8 implies (#[trigger] is_lit(res[i], k)
        <==> !is_lit(bytes[i], k)) by {
        lemma_invert_flips(bytes[i], k);
    }
    res
}

proof fn lemma_invert_flips(b: u8, k: int)
    requires
        0 <= k < 8,
    ensures
        is_lit(b ^ 0xFFu8, k) <==> !is_lit(b, k),
{
    let s: u8 = (7 - k) as u8;
    assert(s < 8);
    assert((b ^ 0xFFu8) & (1u8 << s) != 0 <==> !(b & (1u8 << s) != 0)) by (bit_vector)
        requires
            s < 8,
    ;
}

/// Rendering a row byte and parsing the text gives the byte back.
pub proof fn lemma_parse_render(b: u8)
    ensures
        parse_row(render_row(b)) == b,
{
    lemma_masks();
    lemma_parse_row_unfold(render_row(b));
    assert(b == (if b & 0x80u8 != 0 { 0x80u8 } else { 0u8 }) | (if b & 0x40u8 != 0 {
        0x40u8
    } else {
        0u8
    }) | (if b & 0x20u8 != 0 { 0x20u8 } else { 0u8 }) | (if b & 0x10u8 != 0 {
        0x10u8
    } else {
        0u8
    }) | (if b & 0x08u8 != 0 { 0x08u8 } else { 0u8 }) | (if b & 0x04u8 != 0 {
        0x04u8
    } else {
        0u8
    }) | (if b & 0x02u8 != 0 { 0x02u8 } else { 0u8 }) | (if b & 0x01u8 != 0 {
        0x01u8
    } else {
        0u8
    })) by (bit_vector);
}

/// Column `k` of a row is lit in the parsed byte exactly when it holds a
/// `#` (columns past the row's end, and past the eighth, are dark).
pub proof fn lemma_row_pixels(line: Seq<char>)
    ensures
        forall|k: int|
            0 <= k < 8 ==> (#[trigger] is_lit(parse_row(line), k) <==> (k < line.len() && line[k]
                == '#')),
{
    lemma_masks();
    lemma_parse_row_unfold(line);
    let x0 = 0 < line.len() && line[0] == '#';
    let x1 = 1 < line.len() && line[1] == '#';
    let x2 = 2 < line.len() && line[2] == '#';
    let x3 = 3 < line.len() && line[3] == '#';
    let x4 = 4 < line.len() && line[4] == '#';
    let x5 = 5 < line.len() && line[5] == '#';
    let x6 = 6 < line.len() && line[6] == '#';
    let x7 = 7 < line.len() && line[7] == '#';
    let v: u8 = (if x0 { 0x80u8 } else { 0u8 }) | (if x1 { 0x40u8 } else { 0u8 }) | (if x2 {
        0x20u8
    } else {
        0u8
    }) | (if x3 { 0x10u8 } else { 0u8 }) | (if x4 { 0x08u8 } else { 0u8 }) | (if x5 {
        0x04u8
    } else {
        0u8
    }) | (if x6 { 0x02u8 } else { 0u8 }) | (if x7 { 0x01u8 } else { 0u8 });
    assert(parse_row(line) == v);
    assert({
        &&& (v & 0x80u8 != 0 <==> x0)
        &&& (v & 0x40u8 != 0 <==> x1)
        &&& (v & 0x20u8 != 0 <==> x2)
        &&& (v & 0x10u8 != 0 <==> x3)
        &&& (v & 0x08u8 != 0 <==> x4)
        &&& (v & 0x04u8 != 0 <==> x5)
        &&& (v & 0x02u8 != 0 <==> x6)
        &&& (v & 0x01u8 != 0 <==> x7)
    }) by (bit_vector)
        requires
            v == (if x0 { 0x80u8 } else { 0u8 }) | (if x1 { 0x40u8 } else { 0u8 }) | (if x2 {
                0x20u8
            } else {
                0u8
            }) | (if x3 { 0x10u8 } else { 0u8 }) | (if x4 { 0x08u8 } else { 0u8 }) | (if x5 {
                0x04u8
            } else {
                0u8
            }) | (if x6 { 0x02u8 } else { 0u8 }) | (if x7 { 0x01u8 } else { 0u8 }),
    ;
}

/// Parsing a row in the exact text form and rendering the byte gives the
/// same text back.
pub proof fn lemma_render_parse(line: Seq<char>)
    requires
        well_formed_row(line),
    ensures
        render_row(parse_row(line)) == line,
{
    lemma_row_pixels(line);
    assert forall|k: int| 0 <= k < 8 implies #[trigger] render_row(parse_row(line))[k]
        == line[k] by {
        assert(is_lit(parse_row(line), k) <==> line[k] == '#');
    }
    assert(render_row(parse_row(line)) =~= line);
}

/// Inverting a row byte twice gives it back.
pub proof fn lemma_invert_twice(b: u8)
    ensures
        (b ^ 0xFFu8) ^ 0xFFu8 == b,
{
    assert((b ^ 0xFFu8) ^ 0xFFu8 == b) by (bit_vector);
}

/// Inverting a row byte turns every `#` of its text into `.` and back.
pub proof fn lemma_invert_render(b: u8)
    ensures
        forall|k: int|
            0 <= k < 8 ==> (#[trigger] render_row(b ^ 0xFFu8)[k] == '#' <==> render_row(b)[k]
                == '.'),
{
    assert forall|k: int| 0 <= k < 8 implies (#[trigger] render_row(b ^ 0xFFu8)[k] == '#'
        <==> render_row(b)[k] == '.') by {
        lemma_invert_flips(b, k);
    }
}

} // verus!

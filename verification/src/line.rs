use vstd::prelude::*;

use crate::options::DumpOptions;

verus! {

// ---------------------------------------------------------------------------
// The mathematical model of one dump line.
//
// A line is the concatenation of three fields:
//   offset label:  the line's byte offset in decimal, zero-padded to at least
//                  eight digits, followed by ": ";
//   hex field:     one three-character group "XY " per byte (two hex digits
//                  and a space), padded with three-space groups up to
//                  `bytes_per_line` groups;
//   char field:    one leading separator space, then one glyph per byte,
//                  padded with spaces up to `bytes_per_line` glyphs.
// ---------------------------------------------------------------------------

/// The character for a single decimal digit.
pub open spec fn spec_digit(d: int) -> char
    recommends
        0 <= d < 10,
{
    ((0x30 + d) as u8) as char
}

/// The character for a single hex digit, in the selected case.
pub open spec fn spec_hex_digit(d: int, uppercase: bool) -> char
    recommends
        0 <= d < 16,
{
    if d < 10 {
        spec_digit(d)
    } else if uppercase {
        ((0x37 + d) as u8) as char
    } else {
        ((0x57 + d) as u8) as char
    }
}

/// The decimal numeral of `n`, most significant digit first, no padding.
pub open spec fn spec_decimal(n: nat) -> Seq<char>
    decreases n,
{
    if n < 10 {
        seq![spec_digit(n as int)]
    } else {
        spec_decimal(n / 10).push(spec_digit((n % 10) as int))
    }
}

/// `k` copies of the space character (empty when `k <= 0`).
pub open spec fn spec_spaces(k: int) -> Seq<char> {
    if k <= 0 {
        Seq::empty()
    } else {
        Seq::new(k as nat, |i: int| ' ')
    }
}

/// `k` copies of the zero character (empty when `k <= 0`).
pub open spec fn spec_zeros(k: int) -> Seq<char> {
    if k <= 0 {
        Seq::empty()
    } else {
        Seq::new(k as nat, |i: int| '0')
    }
}

/// The offset label: the offset in decimal, zero-padded to at least eight
/// digits, followed by ": ".
pub open spec fn spec_offset_label(offset: nat) -> Seq<char> {
    spec_zeros(8 - spec_decimal(offset).len()) + spec_decimal(offset) + seq![':', ' ']
}

/// The printable-character rendering of one byte: bytes in the inclusive
/// range 0x20 ..= 0x7F are shown as the character with that code point,
/// every other byte as the placeholder '.'.
pub open spec fn spec_glyph(b: u8) -> char {
    if 0x20 <= b <= 0x7f {
        b as char
    } else {
        '.'
    }
}

/// The three-character hex group for one byte: high nibble, low nibble, space.
pub open spec fn spec_hex_group(b: u8, uppercase: bool) -> Seq<char> {
    seq![
        spec_hex_digit(b as int / 16, uppercase),
        spec_hex_digit(b as int % 16, uppercase),
        ' ',
    ]
}

/// The hex groups of all bytes of a chunk, in order.
pub open spec fn spec_hex_groups(chunk: Seq<u8>, uppercase: bool) -> Seq<char>
    decreases chunk.len(),
{
    if chunk.len() == 0 {
        Seq::empty()
    } else {
        spec_hex_group(chunk[0], uppercase) + spec_hex_groups(chunk.drop_first(), uppercase)
    }
}

/// The full hex field: the groups of the chunk, padded with three-space
/// groups so that every line carries `bytes_per_line` groups.
pub open spec fn spec_hex_field(chunk: Seq<u8>, bytes_per_line: nat, uppercase: bool) -> Seq<
    char,
> {
    spec_hex_groups(chunk, uppercase) + spec_spaces(3 * (bytes_per_line - chunk.len()))
}

/// The full character field: one separator space, the glyphs of the chunk,
/// padded with spaces so that every line carries `bytes_per_line` glyph
/// positions.
pub open spec fn spec_char_field(chunk: Seq<u8>, bytes_per_line: nat) -> Seq<char> {
    seq![' '] + chunk.map_values(|b: u8| spec_glyph(b)) + spec_spaces(
        bytes_per_line - chunk.len(),
    )
}

/// One whole dump line for a chunk labelled with `offset`.
pub open spec fn spec_line(
    chunk: Seq<u8>,
    offset: nat,
    bytes_per_line: nat,
    uppercase: bool,
) -> Seq<char> {
    spec_offset_label(offset) + spec_hex_field(chunk, bytes_per_line, uppercase)
        + spec_char_field(chunk, bytes_per_line)
}

// ---------------------------------------------------------------------------
// Laws of the line model.
// ---------------------------------------------------------------------------

/// The numeric value of a hex digit character; 0 for any other character.
pub open spec fn spec_hex_val(c: char) -> int {
    let u = c as u32;
    if 0x30 <= u && u <= 0x39 {
        u - 0x30
    } else if 0x41 <= u && u <= 0x46 {
        u - 0x37
    } else if 0x61 <= u && u <= 0x66 {
        u - 0x57
    } else {
        0
    }
}

/// Read three-character hex groups back into bytes, stopping at the first
/// position that does not start a group: the padding, or the char field,
/// both of which begin with a space.
pub open spec fn spec_decode_hex(s: Seq<char>) -> Seq<u8>
    decreases s.len(),
{
    if s.len() < 3 || s[0] == ' ' {
        Seq::empty()
    } else {
        seq![(16 * spec_hex_val(s[0]) + spec_hex_val(s[1])) as u8] + spec_decode_hex(s.skip(3))
    }
}

/// Rendering a hex digit and reading it back is the identity, in either case.
proof fn lemma_hex_digit_val(d: int, uppercase: bool)
    requires
        0 <= d < 16,
    ensures
        spec_hex_val(spec_hex_digit(d, uppercase)) == d,
        spec_hex_digit(d, uppercase) != ' ',
{
}

/// The hex groups of a chunk: three characters per byte, group `j` rendering
/// byte `j`.
pub proof fn lemma_hex_groups_index(chunk: Seq<u8>, uppercase: bool)
    ensures
        spec_hex_groups(chunk, uppercase).len() == 3 * chunk.len(),
        forall|j: int|
            0 <= j < chunk.len() ==> #[trigger] spec_hex_groups(chunk, uppercase).subrange(
                3 * j,
                3 * j + 3,
            ) == spec_hex_group(chunk[j], uppercase),
    decreases chunk.len(),
{
    if chunk.len() == 0 {
    } else {
        let rest = chunk.drop_first();
        lemma_hex_groups_index(rest, uppercase);
        let g = spec_hex_groups(chunk, uppercase);
        let gr = spec_hex_groups(rest, uppercase);
        assert(g == spec_hex_group(chunk[0], uppercase) + gr);
        assert forall|j: int| 0 <= j < chunk.len() implies #[trigger] g.subrange(
            3 * j,
            3 * j + 3,
        ) == spec_hex_group(chunk[j], uppercase) by {
            if j == 0 {
                assert(g.subrange(0, 3) =~= spec_hex_group(chunk[0], uppercase));
            } else {
                assert(gr.subrange(3 * (j - 1), 3 * (j - 1) + 3) == spec_hex_group(
                    rest[j - 1],
                    uppercase,
                ));
                assert(g.subrange(3 * j, 3 * j + 3) =~= gr.subrange(3 * (j - 1), 3 * (j - 1) + 3));
                assert(rest[j - 1] == chunk[j]);
            }
        };
    }
}

/// Hex-field law: the hex field always holds exactly `bytes_per_line`
/// three-character groups; group `j` renders byte `j` of the chunk as two
/// hex digits and a space, and every group past the chunk is blank.
pub proof fn lemma_hex_field_groups(chunk: Seq<u8>, bytes_per_line: nat, uppercase: bool)
    requires
        chunk.len() <= bytes_per_line,
    ensures
        spec_hex_field(chunk, bytes_per_line, uppercase).len() == 3 * bytes_per_line,
        forall|j: int|
            0 <= j < chunk.len() ==> #[trigger] spec_hex_field(
                chunk,
                bytes_per_line,
                uppercase,
            ).subrange(3 * j, 3 * j + 3) == spec_hex_group(chunk[j], uppercase),
        forall|j: int|
            chunk.len() <= j < bytes_per_line ==> #[trigger] spec_hex_field(
                chunk,
                bytes_per_line,
                uppercase,
            ).subrange(3 * j, 3 * j + 3) == seq![' ', ' ', ' '],
{
    lemma_hex_groups_index(chunk, uppercase);
    let f = spec_hex_field(chunk, bytes_per_line, uppercase);
    let g = spec_hex_groups(chunk, uppercase);
    assert forall|j: int| 0 <= j < chunk.len() implies #[trigger] f.subrange(3 * j, 3 * j + 3)
        == spec_hex_group(chunk[j], uppercase) by {
        assert(g.subrange(3 * j, 3 * j + 3) == spec_hex_group(chunk[j], uppercase));
        assert(f.subrange(3 * j, 3 * j + 3) =~= g.subrange(3 * j, 3 * j + 3));
    };
    assert forall|j: int| chunk.len() <= j < bytes_per_line implies #[trigger] f.subrange(
        3 * j,
        3 * j + 3,
    ) == seq![' ', ' ', ' '] by {
        assert(f.subrange(3 * j, 3 * j + 3) =~= seq![' ', ' ', ' ']);
    };
}

/// Character-field law: the field is one separator space followed by exactly
/// `bytes_per_line` positions; position `j` holds the glyph of byte `j` —
/// the byte itself when its value lies in 0x20 ..= 0x7F, '.' otherwise —
/// and every position past the chunk is blank.
pub proof fn lemma_char_field(chunk: Seq<u8>, bytes_per_line: nat)
    requires
        chunk.len() <= bytes_per_line,
    ensures
        spec_char_field(chunk, bytes_per_line).len() == 1 + bytes_per_line,
        spec_char_field(chunk, bytes_per_line)[0] == ' ',
        forall|j: int|
            0 <= j < chunk.len() ==> #[trigger] spec_char_field(chunk, bytes_per_line)[1 + j]
                == spec_glyph(chunk[j]),
        forall|j: int|
            chunk.len() <= j < bytes_per_line ==> #[trigger] spec_char_field(
                chunk,
                bytes_per_line,
            )[1 + j] == ' ',
{
}

/// Holds of every character that an uppercase hex field may contain: a
/// space, a decimal digit, or one of 'A' ..= 'F'.
pub open spec fn spec_upper_hex_text(c: char) -> bool {
    let u = c as u32;
    u == 0x20 || (0x30 <= u && u <= 0x39) || (0x41 <= u && u <= 0x46)
}

/// Holds of every character that a lowercase hex field may contain: a
/// space, a decimal digit, or one of 'a' ..= 'f'.
pub open spec fn spec_lower_hex_text(c: char) -> bool {
    let u = c as u32;
    u == 0x20 || (0x30 <= u && u <= 0x39) || (0x61 <= u && u <= 0x66)
}

/// Case law: with uppercase selected the hex field never contains a
/// lowercase hex letter, and with lowercase never an uppercase one; every
/// character is a space, a digit, or a hex letter of the selected case.
pub proof fn lemma_hex_field_case(chunk: Seq<u8>, bytes_per_line: nat, uppercase: bool)
    requires
        chunk.len() <= bytes_per_line,
    ensures
        forall|k: int|
            0 <= k < spec_hex_field(chunk, bytes_per_line, uppercase).len() ==> (if uppercase {
                spec_upper_hex_text(#[trigger] spec_hex_field(chunk, bytes_per_line, uppercase)[k])
            } else {
                spec_lower_hex_text(spec_hex_field(chunk, bytes_per_line, uppercase)[k])
            }),
    decreases chunk.len(),
{
    let f = spec_hex_field(chunk, bytes_per_line, uppercase);
    if chunk.len() == 0 {
        assert forall|k: int| 0 <= k < f.len() implies (if uppercase {
            spec_upper_hex_text(#[trigger] f[k])
        } else {
            spec_lower_hex_text(f[k])
        }) by {
            assert(f[k] == ' ');
        };
    } else {
        let rest = chunk.drop_first();
        lemma_hex_field_case(rest, (bytes_per_line - 1) as nat, uppercase);
        let fr = spec_hex_field(rest, (bytes_per_line - 1) as nat, uppercase);
        assert(f =~= spec_hex_group(chunk[0], uppercase) + fr);
        assert forall|k: int| 0 <= k < f.len() implies (if uppercase {
            spec_upper_hex_text(#[trigger] f[k])
        } else {
            spec_lower_hex_text(f[k])
        }) by {
            if k < 3 {
                assert(f[k] == spec_hex_group(chunk[0], uppercase)[k]);
            } else {
                assert(f[k] == fr[k - 3]);
            }
        };
    }
}

/// Decoding a hex field — alone, or followed by anything that starts with a
/// space, such as the char field — returns exactly the chunk's bytes.
pub proof fn lemma_hex_field_decode(
    chunk: Seq<u8>,
    bytes_per_line: nat,
    uppercase: bool,
    suffix: Seq<char>,
)
    requires
        chunk.len() <= bytes_per_line,
        suffix.len() == 0 || suffix[0] == ' ',
    ensures
        spec_decode_hex(spec_hex_field(chunk, bytes_per_line, uppercase) + suffix) == chunk,
    decreases chunk.len(),
{
    let s = spec_hex_field(chunk, bytes_per_line, uppercase) + suffix;
    if chunk.len() == 0 {
        assert(spec_decode_hex(s) =~= chunk);
    } else {
        let c0 = chunk[0];
        let rest = chunk.drop_first();
        lemma_hex_digit_val(c0 as int / 16, uppercase);
        lemma_hex_digit_val(c0 as int % 16, uppercase);
        let s_rest = spec_hex_field(rest, (bytes_per_line - 1) as nat, uppercase) + suffix;
        assert(s.skip(3) =~= s_rest);
        lemma_hex_field_decode(rest, (bytes_per_line - 1) as nat, uppercase, suffix);
        assert(s[0] == spec_hex_digit(c0 as int / 16, uppercase));
        assert(s[1] == spec_hex_digit(c0 as int % 16, uppercase));
        assert(16 * spec_hex_val(s[0]) + spec_hex_val(s[1]) == c0);
        assert(spec_decode_hex(s) =~= chunk);
    }
}

/// Round-trip law (one line): re-parsing the hex field of a line yields the
/// chunk it was rendered from, byte for byte.
pub proof fn lemma_hex_field_round_trip(chunk: Seq<u8>, bytes_per_line: nat, uppercase: bool)
    requires
        chunk.len() <= bytes_per_line,
    ensures
        spec_decode_hex(spec_hex_field(chunk, bytes_per_line, uppercase)) == chunk,
{
    lemma_hex_field_decode(chunk, bytes_per_line, uppercase, Seq::empty());
    assert(spec_hex_field(chunk, bytes_per_line, uppercase) + Seq::<char>::empty()
        =~= spec_hex_field(chunk, bytes_per_line, uppercase));
}

/// Ten to the `k`-th power.
pub open spec fn pow10(k: nat) -> nat
    decreases k,
{
    if k == 0 {
        1
    } else {
        10 * pow10((k - 1) as nat)
    }
}

/// A decimal numeral never has fewer than one digit.
proof fn lemma_decimal_len_pos(n: nat)
    ensures
        spec_decimal(n).len() >= 1,
    decreases n,
{
    if n >= 10 {
        lemma_decimal_len_pos(n / 10);
    }
}

/// The decimal numeral of `n` has at most `k` digits when `n < pow10(k)`.
proof fn lemma_decimal_len_bound(n: nat, k: nat)
    requires
        k >= 1,
        n < pow10(k),
    ensures
        spec_decimal(n).len() <= k,
    decreases k,
{
    if n < 10 {
    } else {
        assert(pow10(0) == 1);
        assert(pow10(1) == 10);
        if k == 1 {
            assert(false);
        } else {
            assert(pow10(k) == 10 * pow10((k - 1) as nat));
            lemma_decimal_len_bound(n / 10, (k - 1) as nat);
        }
    }
}

/// Alignment law: the label of an offset below 10^8 is exactly ten
/// characters, so every line of such a dump has one and the same width,
/// 11 + 4 * bytes_per_line, whether or not its chunk is short.
pub proof fn lemma_line_len(chunk: Seq<u8>, offset: nat, bytes_per_line: nat, uppercase: bool)
    requires
        chunk.len() <= bytes_per_line,
        offset < 100000000,
    ensures
        spec_offset_label(offset).len() == 10,
        spec_line(chunk, offset, bytes_per_line, uppercase).len() == 11 + 4 * bytes_per_line,
{
    assert(pow10(8) == 100000000) by {
        assert(pow10(0) == 1);
        assert(pow10(1) == 10);
        assert(pow10(2) == 100);
        assert(pow10(3) == 1000);
        assert(pow10(4) == 10000);
        assert(pow10(5) == 100000);
        assert(pow10(6) == 1000000);
        assert(pow10(7) == 10000000);
        assert(pow10(8) == 100000000);
    };
    lemma_decimal_len_bound(offset, 8);
    lemma_decimal_len_pos(offset);
    lemma_hex_field_groups(chunk, bytes_per_line, uppercase);
    lemma_char_field(chunk, bytes_per_line);
}

// ---------------------------------------------------------------------------
// Executable rendering.
// ---------------------------------------------------------------------------

/// Render one byte for the character field of a dump line.
pub fn glyph(b: u8) -> (c: char)
    ensures
        c == spec_glyph(b),
{
    if 0x20 <= b && b <= 0x7f {
        b as char
    } else {
        '.'
    }
}

/// Render one hex digit in the selected case.
fn hex_digit(d: u8, uppercase: bool) -> (c: char)
    requires
        d < 16,
    ensures
        c == spec_hex_digit(d as int, uppercase),
{
    if d < 10 {
        (0x30 + d) as char
    } else if uppercase {
        (0x37 + d) as char
    } else {
        (0x57 + d) as char
    }
}

/// Render one decimal digit.
fn digit(d: u8) -> (c: char)
    requires
        d < 10,
    ensures
        c == spec_digit(d as int),
{
    (0x30 + d) as char
}

/// Append the decimal numeral of `n` to `out`.
fn push_decimal(out: &mut Vec<char>, n: u64)
    ensures
        final(out)@ == old(out)@ + spec_decimal(n as nat),
    decreases n,
{
    if n < 10 {
        out.push(digit(n as u8));
        assert(out@ =~= old(out)@ + spec_decimal(n as nat));
    } else {
        push_decimal(out, n / 10);
        out.push(digit((n % 10) as u8));
        assert(out@ =~= old(out)@ + spec_decimal(n as nat));
    }
}

/// The number of digits of the decimal numeral of `n`.
fn decimal_len(n: u64) -> (len: u64)
    ensures
        len == spec_decimal(n as nat).len(),
        1 <= len <= n + 1,
    decreases n,
{
    if n < 10 {
        1
    } else {
        1 + decimal_len(n / 10)
    }
}

/// Append the offset label for `offset` to `out`.
fn push_offset_label(out: &mut Vec<char>, offset: u64)
    ensures
        final(out)@ == old(out)@ + spec_offset_label(offset as nat),
{
    let ghost base: Seq<char> = out@;
    let len = decimal_len(offset);
    let pads: u64 = if len < 8 {
        8 - len
    } else {
        0
    };
    let mut i: u64 = 0;
    while i < pads
        invariant
            i <= pads,
            out@ == base + spec_zeros(i as int),
        decreases pads - i,
    {
        out.push('0');
        assert(out@ =~= base + spec_zeros(i + 1));
        i = i + 1;
    }
    assert(spec_zeros(pads as int) == spec_zeros(8 - spec_decimal(offset as nat).len()));
    push_decimal(out, offset);
    out.push(':');
    out.push(' ');
    assert(out@ =~= base + spec_offset_label(offset as nat));
}

/// Appending a byte to a chunk appends its group to the chunk's hex groups.
proof fn lemma_hex_groups_push(chunk: Seq<u8>, b: u8, uppercase: bool)
    ensures
        spec_hex_groups(chunk.push(b), uppercase) == spec_hex_groups(chunk, uppercase)
            + spec_hex_group(b, uppercase),
    decreases chunk.len(),
{
    if chunk.len() == 0 {
        assert(chunk.push(b).drop_first() =~= Seq::<u8>::empty());
        assert(spec_hex_groups(Seq::<u8>::empty(), uppercase) == Seq::<char>::empty());
        assert(chunk.push(b)[0] == b);
        assert(spec_hex_groups(chunk.push(b), uppercase) == spec_hex_group(b, uppercase)
            + Seq::<char>::empty());
        assert(spec_hex_group(b, uppercase) + Seq::<char>::empty() =~= spec_hex_groups(
            chunk,
            uppercase,
        ) + spec_hex_group(b, uppercase));
    } else {
        let rest = chunk.drop_first();
        assert(chunk.push(b).drop_first() =~= rest.push(b));
        lemma_hex_groups_push(rest, b, uppercase);
        assert(chunk.push(b)[0] == chunk[0]);
        assert(spec_hex_groups(chunk.push(b), uppercase) == spec_hex_group(chunk[0], uppercase)
            + (spec_hex_groups(rest, uppercase) + spec_hex_group(b, uppercase)));
        assert(spec_hex_group(chunk[0], uppercase) + (spec_hex_groups(rest, uppercase)
            + spec_hex_group(b, uppercase)) =~= (spec_hex_group(chunk[0], uppercase)
            + spec_hex_groups(rest, uppercase)) + spec_hex_group(b, uppercase));
    }
}

/// Relies on `String`'s `FromIterator<char>` impl, reached through
/// `Iterator::collect`: collecting chars yields the string holding exactly
/// those chars, in order. vstd gives no way to grow a `String` char by char.
#[verifier::external_body]
fn chars_to_string(chars: Vec<char>) -> (s: String)
    ensures
        s@ == chars@,
{
    chars.into_iter().collect()
}

/// Render one whole dump line: the bytes of `chunk` (at most
/// `options.bytes_per_line` of them), labelled with `offset`.
pub fn make_line(data: &[u8], offset: u64, options: &DumpOptions) -> (line: String)
    requires
        data@.len() <= options.bytes_per_line,
    ensures
        line@ == spec_line(
            data@,
            offset as nat,
            options.bytes_per_line as nat,
            options.uppercase,
        ),
{
    let bpl = options.bytes_per_line;
    let uppercase = options.uppercase;
    let mut out: Vec<char> = Vec::new();
    push_offset_label(&mut out, offset);
    let ghost label: Seq<char> = out@;

    let mut i: usize = 0;
    while i < data.len()
        invariant
            i <= data@.len(),
            out@ == label + spec_hex_groups(data@.take(i as int), uppercase),
        decreases data@.len() - i,
    {
        let b = data[i];
        out.push(hex_digit(b / 16, uppercase));
        out.push(hex_digit(b % 16, uppercase));
        out.push(' ');
        proof {
            lemma_hex_groups_push(data@.take(i as int), b, uppercase);
            assert(data@.take(i + 1) =~= data@.take(i as int).push(b));
            assert(out@ =~= label + spec_hex_groups(data@.take(i + 1), uppercase));
        }
        i = i + 1;
    }
    assert(data@.take(data@.len() as int) =~= data@);

    let ghost with_groups: Seq<char> = out@;
    let mut done: u64 = data.len() as u64;
    while done < bpl
        invariant
            data@.len() <= done <= bpl,
            out@ == with_groups + spec_spaces(3 * (done - data@.len())),
        decreases bpl - done,
    {
        out.push(' ');
        out.push(' ');
        out.push(' ');
        assert(out@ =~= with_groups + spec_spaces(3 * (done + 1 - data@.len())));
        done = done + 1;
    }

    let ghost with_hex: Seq<char> = out@;
    out.push(' ');
    let ghost with_sep: Seq<char> = out@;

    let mut j: usize = 0;
    while j < data.len()
        invariant
            j <= data@.len(),
            out@ == with_sep + data@.take(j as int).map_values(|b: u8| spec_glyph(b)),
        decreases data@.len() - j,
    {
        let c = glyph(data[j]);
        out.push(c);
        assert(out@ =~= with_sep + data@.take(j + 1).map_values(|b: u8| spec_glyph(b)));
        j = j + 1;
    }
    assert(data@.take(data@.len() as int) =~= data@);

    let ghost with_glyphs: Seq<char> = out@;
    let mut done2: u64 = data.len() as u64;
    while done2 < bpl
        invariant
            data@.len() <= done2 <= bpl,
            out@ == with_glyphs + spec_spaces(done2 - data@.len()),
        decreases bpl - done2,
    {
        out.push(' ');
        assert(out@ =~= with_glyphs + spec_spaces(done2 + 1 - data@.len()));
        done2 = done2 + 1;
    }

    proof {
        assert(with_hex =~= label + spec_hex_field(data@, bpl as nat, uppercase));
        assert(out@ =~= spec_line(data@, offset as nat, bpl as nat, uppercase));
    }
    chars_to_string(out)
}

} // verus!


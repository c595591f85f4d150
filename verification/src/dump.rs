use vstd::prelude::*;

use crate::line::make_line;
use crate::line::spec_line;
use crate::line::spec_offset_label;
use crate::options::valid_options;
use crate::options::valid_range;
use crate::options::DumpError;
use crate::options::DumpOptions;

verus! {

/// How many lines a window of `dump_length` bytes yields at `bytes_per_line`
/// bytes each: the quotient rounded up, 0 when the window is empty.
pub open spec fn spec_line_count(dump_length: nat, bytes_per_line: nat) -> int
    recommends
        bytes_per_line > 0,
{
    (dump_length + bytes_per_line - 1) / (bytes_per_line as int)
}

/// Chunk `i` of a window: the `i`-th run of `bytes_per_line` consecutive
/// bytes; the last chunk may be shorter.
pub open spec fn spec_chunk(window: Seq<u8>, bytes_per_line: nat, i: int) -> Seq<u8>
    recommends
        bytes_per_line > 0,
        0 <= i < spec_line_count(window.len(), bytes_per_line),
{
    window.subrange(
        i * bytes_per_line,
        if (i + 1) * bytes_per_line <= window.len() {
            (i + 1) * bytes_per_line
        } else {
            window.len() as int
        },
    )
}

/// All lines of a dump of `window`, whose first byte sits at buffer offset
/// `start`: one line per chunk, labelled `start`, `start + bytes_per_line`,
/// `start + 2 * bytes_per_line`, and so on.
pub open spec fn spec_dump(
    window: Seq<u8>,
    start: nat,
    bytes_per_line: nat,
    uppercase: bool,
) -> Seq<Seq<char>>
    recommends
        bytes_per_line > 0,
{
    Seq::new(
        spec_line_count(window.len(), bytes_per_line) as nat,
        |i: int|
            spec_line(
                spec_chunk(window, bytes_per_line, i),
                (start + i * bytes_per_line) as nat,
                bytes_per_line,
                uppercase,
            ),
    )
}

/// The window that a configuration selects from a buffer.
pub open spec fn spec_window(buffer: Seq<u8>, opts: DumpOptions) -> Seq<u8>
    recommends
        valid_range(opts, buffer.len()),
{
    buffer.subrange(opts.start_offset as int, opts.start_offset + opts.dump_length)
}

/// The views of a vector of rendered lines.
pub open spec fn line_views(lines: Seq<String>) -> Seq<Seq<char>> {
    lines.map_values(|s: String| s@)
}

/// The line count is the unique `q` with `(q - 1) * bpl < dl <= q * bpl`.
proof fn lemma_line_count_eq(dl: int, bpl: int, q: int)
    requires
        0 <= dl,
        0 < bpl,
        0 <= q,
        q * bpl - bpl < dl <= q * bpl,
    ensures
        spec_line_count(dl as nat, bpl as nat) == q,
{
    vstd::arithmetic::div_mod::lemma_fundamental_div_mod_converse(
        dl + bpl - 1,
        bpl,
        q,
        dl + bpl - 1 - q * bpl,
    );
}

/// A window longer than `i` full chunks yields more than `i` lines.
proof fn lemma_line_count_gt(dl: int, bpl: int, i: int)
    requires
        0 < bpl,
        0 <= i,
        i * bpl < dl,
    ensures
        i < spec_line_count(dl as nat, bpl as nat),
{
    let q = spec_line_count(dl as nat, bpl as nat);
    vstd::arithmetic::div_mod::lemma_fundamental_div_mod(dl + bpl - 1, bpl);
    let r = (dl + bpl - 1) % bpl;
    vstd::arithmetic::div_mod::lemma_mod_bound(dl + bpl - 1, bpl);
    assert(i < q) by (nonlinear_arith)
        requires
            dl + bpl - 1 == bpl * q + r,
            0 <= r < bpl,
            i * bpl < dl,
            0 <= i,
            0 < bpl,
    ;
}

/// The line count `q` is the quotient with `(q - 1) * bpl < dl <= q * bpl`.
proof fn lemma_line_count_bounds(dl: int, bpl: int)
    requires
        0 <= dl,
        0 < bpl,
    ensures
        0 <= spec_line_count(dl as nat, bpl as nat),
        spec_line_count(dl as nat, bpl as nat) * bpl - bpl < dl,
        dl <= spec_line_count(dl as nat, bpl as nat) * bpl,
{
    let q = spec_line_count(dl as nat, bpl as nat);
    vstd::arithmetic::div_mod::lemma_fundamental_div_mod(dl + bpl - 1, bpl);
    let r = (dl + bpl - 1) % bpl;
    vstd::arithmetic::div_mod::lemma_mod_bound(dl + bpl - 1, bpl);
    assert(q * bpl - bpl < dl <= q * bpl && q >= 0) by (nonlinear_arith)
        requires
            dl + bpl - 1 == bpl * q + r,
            0 <= r < bpl,
            0 <= dl,
            0 < bpl,
    ;
}

/// Chunk-shape law: no chunk is empty or longer than `bytes_per_line`, and
/// every chunk before the last is exactly `bytes_per_line` bytes.
pub proof fn lemma_chunk_len(window: Seq<u8>, bytes_per_line: nat, i: int)
    requires
        bytes_per_line > 0,
        0 <= i < spec_line_count(window.len(), bytes_per_line),
    ensures
        0 < spec_chunk(window, bytes_per_line, i).len() <= bytes_per_line,
        i < spec_line_count(window.len(), bytes_per_line) - 1 ==> spec_chunk(
            window,
            bytes_per_line,
            i,
        ).len() == bytes_per_line,
{
    let len = window.len() as int;
    let bpl = bytes_per_line as int;
    let q = spec_line_count(window.len(), bytes_per_line);
    lemma_line_count_bounds(len, bpl);
    assert((i + 1) * bpl == i * bpl + bpl && (q - 1) * bpl == q * bpl - bpl) by (nonlinear_arith);
    assert(i * bpl <= (q - 1) * bpl && (i + 1) * bpl <= q * bpl) by (nonlinear_arith)
        requires
            i + 1 <= q,
            0 < bpl,
    ;
    if i < q - 1 {
        assert((i + 1) * bpl <= (q - 1) * bpl) by (nonlinear_arith)
            requires
                i + 1 <= q - 1,
                0 < bpl,
        ;
    }
}

/// Offset law: line `i` of a dump begins with the offset label of
/// `start + i * bytes_per_line`, so the offsets start at `start` and grow
/// by exactly `bytes_per_line` from each line to the next.
pub proof fn lemma_dump_offsets(
    window: Seq<u8>,
    start: nat,
    bytes_per_line: nat,
    uppercase: bool,
    i: int,
)
    requires
        bytes_per_line > 0,
        0 <= i < spec_line_count(window.len(), bytes_per_line),
    ensures
        spec_dump(window, start, bytes_per_line, uppercase)[i].take(
            spec_offset_label((start + i * bytes_per_line) as nat).len() as int,
        ) == spec_offset_label((start + i * bytes_per_line) as nat),
        (start + (i + 1) * bytes_per_line) - (start + i * bytes_per_line) == bytes_per_line,
{
    let bpl = bytes_per_line as int;
    assert((i + 1) * bpl == i * bpl + bpl) by (nonlinear_arith);
    assert(i * bpl >= 0) by (nonlinear_arith)
        requires
            0 <= i,
            0 < bpl,
    ;
    let line = spec_dump(window, start, bytes_per_line, uppercase)[i];
    let label = spec_offset_label((start + i * bytes_per_line) as nat);
    assert(line == spec_line(
        spec_chunk(window, bytes_per_line, i),
        (start + i * bytes_per_line) as nat,
        bytes_per_line,
        uppercase,
    ));
    assert(line.take(label.len() as int) =~= label);
}

/// Full-line law: in every line before the last, the hex field holds
/// `bytes_per_line` real two-digit groups: group `j` renders window byte
/// `i * bytes_per_line + j`, and none of the groups is padding.
pub proof fn lemma_full_lines_hex(
    window: Seq<u8>,
    start: nat,
    bytes_per_line: nat,
    uppercase: bool,
    i: int,
    j: int,
)
    requires
        bytes_per_line > 0,
        0 <= i < spec_line_count(window.len(), bytes_per_line) - 1,
        0 <= j < bytes_per_line,
    ensures
        spec_dump(window, start, bytes_per_line, uppercase)[i].subrange(
            spec_offset_label((start + i * bytes_per_line) as nat).len() + 3 * j,
            spec_offset_label((start + i * bytes_per_line) as nat).len() + 3 * j + 3,
        ) == crate::line::spec_hex_group(window[i * bytes_per_line + j], uppercase),
{
    let bpl = bytes_per_line as int;
    assert((i + 1) * bpl == i * bpl + bpl) by (nonlinear_arith);
    assert(i * bpl >= 0) by (nonlinear_arith)
        requires
            0 <= i,
            0 < bpl,
    ;
    lemma_chunk_len(window, bytes_per_line, i);
    let q = spec_line_count(window.len(), bytes_per_line);
    lemma_line_count_bounds(window.len() as int, bpl);
    assert((q - 1) * bpl == q * bpl - bpl) by (nonlinear_arith);
    assert((i + 1) * bpl <= (q - 1) * bpl) by (nonlinear_arith)
        requires
            i + 1 <= q - 1,
            0 < bpl,
    ;
    let chunk = spec_chunk(window, bytes_per_line, i);
    assert(i * bpl + bpl <= window.len());
    assert(chunk =~= window.subrange(i * bpl, i * bpl + bpl));
    crate::line::lemma_hex_field_groups(chunk, bytes_per_line, uppercase);
    let line = spec_dump(window, start, bytes_per_line, uppercase)[i];
    let label = spec_offset_label((start + i * bytes_per_line) as nat);
    let field = crate::line::spec_hex_field(chunk, bytes_per_line, uppercase);
    assert(line == spec_line(chunk, (start + i * bytes_per_line) as nat, bytes_per_line, uppercase));
    assert(chunk[j] == window[i * bpl + j]);
    assert(field.subrange(3 * j, 3 * j + 3) == crate::line::spec_hex_group(chunk[j], uppercase));
    assert(line.subrange(label.len() + 3 * j, label.len() + 3 * j + 3) =~= field.subrange(
        3 * j,
        3 * j + 3,
    ));
}

/// The chunks of a window, concatenated in order, are the window itself:
/// every byte appears in exactly one chunk, in order.
pub proof fn lemma_chunks_flatten(window: Seq<u8>, bytes_per_line: nat)
    requires
        bytes_per_line > 0,
    ensures
        Seq::new(
            spec_line_count(window.len(), bytes_per_line) as nat,
            |i: int| spec_chunk(window, bytes_per_line, i),
        ).flatten() == window,
    decreases window.len(),
{
    let bpl = bytes_per_line as int;
    let len = window.len() as int;
    let q = spec_line_count(window.len(), bytes_per_line);
    lemma_line_count_bounds(len, bpl);
    let chunks = Seq::new(q as nat, |i: int| spec_chunk(window, bytes_per_line, i));
    if window.len() == 0 {
        lemma_line_count_eq(0, bpl, 0);
        assert(chunks =~= Seq::<Seq<u8>>::empty());
        assert(Seq::<Seq<u8>>::empty().flatten() == Seq::<u8>::empty());
        assert(chunks.flatten() =~= window);
    } else if len <= bpl {
        lemma_line_count_eq(len, bpl, 1);
        assert(chunks.first() =~= window);
        assert(chunks.drop_first() =~= Seq::<Seq<u8>>::empty());
        assert(Seq::<Seq<u8>>::empty().flatten() == Seq::<u8>::empty());
        assert(chunks.flatten() =~= window);
    } else {
        let tail = window.skip(bpl);
        lemma_line_count_gt(len, bpl, 0);
        assert((q - 1) * bpl == q * bpl - bpl) by (nonlinear_arith);
        lemma_line_count_eq(len - bpl, bpl, q - 1);
        lemma_chunks_flatten(tail, bytes_per_line);
        let tail_chunks = Seq::new((q - 1) as nat, |i: int| spec_chunk(tail, bytes_per_line, i));
        assert forall|i: int| 0 <= i < q - 1 implies chunks.drop_first()[i] == tail_chunks[i] by {
            assert((i + 1) * bpl == i * bpl + bpl && (i + 2) * bpl == (i + 1) * bpl + bpl && i * bpl
                >= 0) by (nonlinear_arith)
                requires
                    0 <= i,
                    0 < bpl,
            ;
            assert((i + 1) * bpl <= (q - 1) * bpl) by (nonlinear_arith)
                requires
                    i + 1 <= q - 1,
                    0 < bpl,
            ;
            assert(spec_chunk(window, bytes_per_line, i + 1) =~= spec_chunk(
                tail,
                bytes_per_line,
                i,
            ));
        };
        assert(chunks.drop_first() =~= tail_chunks);
        assert(chunks.first() == spec_chunk(window, bytes_per_line, 0));
        assert(chunks.first() =~= window.take(bpl));
        assert(chunks.flatten() == chunks.first() + tail_chunks.flatten());
        assert(chunks.flatten() =~= window);
    }
}

/// Round-trip law (whole dump): drop each line's offset label, read the hex
/// groups back into bytes, and concatenate: the window comes back, byte for
/// byte.
pub proof fn lemma_dump_round_trip(
    window: Seq<u8>,
    start: nat,
    bytes_per_line: nat,
    uppercase: bool,
)
    requires
        bytes_per_line > 0,
    ensures
        Seq::new(
            spec_line_count(window.len(), bytes_per_line) as nat,
            |i: int|
                crate::line::spec_decode_hex(
                    spec_dump(window, start, bytes_per_line, uppercase)[i].skip(
                        spec_offset_label((start + i * bytes_per_line) as nat).len() as int,
                    ),
                ),
        ).flatten() == window,
{
    let bpl = bytes_per_line as int;
    let q = spec_line_count(window.len(), bytes_per_line);
    lemma_line_count_bounds(window.len() as int, bpl);
    let decoded = Seq::new(
        q as nat,
        |i: int|
            crate::line::spec_decode_hex(
                spec_dump(window, start, bytes_per_line, uppercase)[i].skip(
                    spec_offset_label((start + i * bytes_per_line) as nat).len() as int,
                ),
            ),
    );
    let chunks = Seq::new(q as nat, |i: int| spec_chunk(window, bytes_per_line, i));
    assert forall|i: int| 0 <= i < q implies decoded[i] == chunks[i] by {
        assert((i + 1) * bpl == i * bpl + bpl && i * bpl >= 0) by (nonlinear_arith)
            requires
                0 <= i,
                0 < bpl,
        ;
        lemma_chunk_len(window, bytes_per_line, i);
        let chunk = spec_chunk(window, bytes_per_line, i);
        let line = spec_dump(window, start, bytes_per_line, uppercase)[i];
        let label = spec_offset_label((start + i * bytes_per_line) as nat);
        let field = crate::line::spec_hex_field(chunk, bytes_per_line, uppercase);
        let char_field = crate::line::spec_char_field(chunk, bytes_per_line);
        crate::line::lemma_char_field(chunk, bytes_per_line);
        assert(line == spec_line(
            chunk,
            (start + i * bytes_per_line) as nat,
            bytes_per_line,
            uppercase,
        ));
        assert(line.skip(label.len() as int) =~= field + char_field);
        crate::line::lemma_hex_field_decode(chunk, bytes_per_line, uppercase, char_field);
    };
    assert(decoded =~= chunks);
    lemma_chunks_flatten(window, bytes_per_line);
}

/// Render the window that `options` selects from `buffer`, one string per
/// dump line, in order. Rejects a zero `bytes_per_line` and a window that
/// does not lie inside the buffer; on success the lines are exactly
/// `spec_dump` of the selected window.
pub fn dump(buffer: &[u8], options: &DumpOptions) -> (r: Result<Vec<String>, DumpError>)
    ensures
        r == Err::<Vec<String>, DumpError>(DumpError::InvalidConfiguration)
            <==> options.bytes_per_line == 0,
        r == Err::<Vec<String>, DumpError>(DumpError::InvalidRange) <==> (options.bytes_per_line
            > 0 && !valid_range(*options, buffer@.len())),
        r is Ok <==> valid_options(*options, buffer@.len()),
        r matches Ok(lines) ==> {
            &&& line_views(lines@) == spec_dump(
                spec_window(buffer@, *options),
                options.start_offset as nat,
                options.bytes_per_line as nat,
                options.uppercase,
            )
            &&& lines@.len() == spec_line_count(
                options.dump_length as nat,
                options.bytes_per_line as nat,
            )
        },
{
    if options.bytes_per_line == 0 {
        return Err(DumpError::InvalidConfiguration);
    }
    let len_us: usize = buffer.len();
    let len: u64 = len_us as u64;
    let start = options.start_offset;
    let dl = options.dump_length;
    let bpl = options.bytes_per_line;
    if !(start < len || (start == 0 && len == 0)) {
        return Err(DumpError::InvalidRange);
    }
    if dl > len - start {
        return Err(DumpError::InvalidRange);
    }
    let ghost window: Seq<u8> = spec_window(buffer@, *options);
    let ghost count: int = spec_line_count(dl as nat, bpl as nat);

    let mut lines: Vec<String> = Vec::new();
    let mut pos: u64 = 0;
    proof {
        assert(lines@.len() * bpl == 0) by (nonlinear_arith)
            requires
                lines@.len() == 0,
        ;
    }
    while pos < dl
        invariant
            bpl == options.bytes_per_line,
            start == options.start_offset,
            dl == options.dump_length,
            bpl > 0,
            start + dl <= len,
            len == buffer@.len(),
            len == len_us,
            window == spec_window(buffer@, *options),
            count == spec_line_count(dl as nat, bpl as nat),
            pos <= dl,
            pos == lines@.len() * bpl || (pos == dl && lines@.len() == count),
            line_views(lines@) == spec_dump(
                window,
                start as nat,
                bpl as nat,
                options.uppercase,
            ).take(lines@.len() as int),
        decreases dl - pos,
    {
        let ghost i: int = lines@.len() as int;
        proof {
            assert((i + 1) * bpl == i * bpl + bpl && i * bpl >= 0) by (nonlinear_arith)
                requires
                    0 <= i,
                    0 < bpl,
            ;
            assert(pos == i * bpl);
            lemma_line_count_gt(dl as int, bpl as int, i);
        }
        let chunk_len: u64 = if dl - pos < bpl {
            dl - pos
        } else {
            bpl
        };
        let a: usize = (start + pos) as usize;
        let b: usize = (start + pos + chunk_len) as usize;
        let chunk = vstd::slice::slice_subrange(buffer, a, b);
        proof {
            assert(window.len() == dl);
            assert(chunk@ =~= spec_chunk(window, bpl as nat, i));
        }
        let line = make_line(chunk, start + pos, options);
        lines.push(line);
        proof {
            let full = spec_dump(window, start as nat, bpl as nat, options.uppercase);
            assert(full.len() == count);
            assert(full[i] == spec_line(
                spec_chunk(window, bpl as nat, i),
                (start + i * bpl) as nat,
                bpl as nat,
                options.uppercase,
            ));
            assert(line_views(lines@) =~= full.take(i + 1));
        }
        pos = pos + chunk_len;
        proof {
            if chunk_len < bpl {
                lemma_line_count_eq(dl as int, bpl as int, i + 1);
            }
        }
    }
    proof {
        if pos == lines@.len() * bpl {
            lemma_line_count_eq(dl as int, bpl as int, lines@.len() as int);
        }
        let full = spec_dump(window, start as nat, bpl as nat, options.uppercase);
        assert(window.len() == dl);
        assert(line_views(lines@) =~= full);
    }
    Ok(lines)
}

} // verus!

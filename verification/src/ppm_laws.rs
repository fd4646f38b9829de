//! Laws of the PPM format: what the reader makes of the writer's output, and
//! what it makes of comment lines.
use vstd::prelude::*;
use vstd::utf8::*;
use crate::lines::{lemma_line_end, line_at, line_end, line_text, next_line, scalars};
use crate::ppm::{
    body_pixels, channel, dimension_values, is_comment, lemma_end_of_input_line,
    lemma_skip_comments_bounds, max_value_text, p3_magic, pixel_line,
    pixel_lines, ppm_header_text, ppm_text, skip_comments, spec_read_header, spec_read_ppm,
    triples, PpmError,
};
use crate::text_laws::{ascii, lemma_ascii_concat, lemma_decimal};
use crate::text::{
    all_digits, decimal, digits_value, is_digit, is_space, number_digits, parse_unsigned, trim,
    trim_end, trim_start, word_len, words,
};

verus! {

broadcast use vstd::array::axiom_array_ext_equal;

pub open spec fn is_ascii_bytes(b: Seq<u8>) -> bool {
    forall|i: int| 0 <= i < b.len() ==> #[trigger] b[i] < 0x80
}

/// ASCII bytes are valid UTF-8 and decode to themselves.
proof fn lemma_ascii_text(b: Seq<u8>)
    requires
        is_ascii_bytes(b),
    ensures
        line_text(b) == Some(ascii(b)),
    decreases b.len(),
{
    if b.len() == 0 {
        assert(scalars(b) =~= ascii(b));
    } else {
        let b0 = b[0];
        assert(b0 < 0x80);
        assert(b0 & 0x7F == b0) by (bit_vector)
            requires
                b0 < 0x80,
        ;
        assert(valid_first_scalar(b));
        assert(decode_first_scalar(b) == b0 as u32);
        let rest = pop_first_scalar(b);
        assert(rest =~= b.drop_first());
        lemma_ascii_text(rest);
        assert(valid_utf8(b));
        assert(decode_utf8(b) == seq![(b0 as u32) as char] + decode_utf8(rest));
        assert(scalars(b) =~= seq![b0 as u32] + scalars(rest));
        assert(ascii(b) =~= seq![b0 as u32] + ascii(rest));
    }
}

proof fn lemma_line_end_found(s: Seq<u8>, pos: int, q: int)
    requires
        0 <= pos <= q < s.len(),
        s[q] == 0x0A,
        forall|k: int| pos <= k < q ==> s[k] != 0x0A,
    ensures
        line_end(s, pos) == q,
    decreases q - pos,
{
    if pos < q {
        lemma_line_end_found(s, pos + 1, q);
    }
}

/// A line without `\n`, followed by `\n`, is read as itself, and reading goes on
/// after the `\n`.
pub proof fn lemma_read_line(pre: Seq<u8>, line: Seq<u8>, rest: Seq<u8>)
    requires
        forall|k: int| 0 <= k < line.len() ==> #[trigger] line[k] != 0x0A,
    ensures
        ({
            let s = pre + line + seq![0x0Au8] + rest;
            &&& line_at(s, pre.len() as int) == line
            &&& next_line(s, pre.len() as int) == pre.len() + line.len() + 1
        }),
{
    let s = pre + line + seq![0x0Au8] + rest;
    let q = (pre.len() + line.len()) as int;
    assert forall|k: int| pre.len() <= k < q implies s[k] != 0x0A by {
        assert(s[k] == line[k - pre.len()]);
    }
    lemma_line_end_found(s, pre.len() as int, q);
    assert(line_at(s, pre.len() as int) =~= line);
}

proof fn lemma_word_len_prefix(a: Seq<u32>, rest: Seq<u32>)
    requires
        forall|i: int| 0 <= i < a.len() ==> !is_space(#[trigger] a[i]),
        rest.len() == 0 || is_space(rest[0]),
    ensures
        word_len(a + rest) == a.len(),
    decreases a.len(),
{
    if a.len() == 0 {
        assert(a + rest =~= rest);
    } else {
        assert((a + rest)[0] == a[0]);
        assert((a + rest).drop_first() =~= a.drop_first() + rest);
        lemma_word_len_prefix(a.drop_first(), rest);
    }
}

/// A word followed by white space or by nothing is the first word.
proof fn lemma_words_prefix(a: Seq<u32>, rest: Seq<u32>)
    requires
        a.len() > 0,
        forall|i: int| 0 <= i < a.len() ==> !is_space(#[trigger] a[i]),
        rest.len() == 0 || is_space(rest[0]),
    ensures
        words(a + rest) == seq![a] + words(rest),
{
    let s = a + rest;
    assert(s[0] == a[0]);
    lemma_word_len_prefix(a, rest);
    assert(s.take(a.len() as int) =~= a);
    assert(s.skip(a.len() as int) =~= rest);
}

proof fn lemma_words_space(rest: Seq<u32>)
    ensures
        words(seq![0x20u32] + rest) == words(rest),
{
    let s = seq![0x20u32] + rest;
    assert(s[0] == 0x20u32);
    assert(s.drop_first() =~= rest);
}

proof fn lemma_decimal_text(n: nat)
    ensures
        is_ascii_bytes(decimal(n)),
        forall|k: int| 0 <= k < decimal(n).len() ==> #[trigger] decimal(n)[k] != 0x0A,
        forall|i: int| 0 <= i < ascii(decimal(n)).len() ==> !is_space(#[trigger] ascii(decimal(n))[i]),
        ascii(decimal(n)).len() > 0,
        ascii(decimal(n))[0] != 0x23,
        forall|max: nat| n <= max ==> parse_unsigned(#[trigger] ascii(decimal(n)), max) == Some(n),
{
    lemma_decimal(n);
    let t = ascii(decimal(n));
    assert forall|i: int| 0 <= i < t.len() implies is_digit(#[trigger] t[i]) by {
        assert(t[i] == decimal(n)[i] as u32);
    }
    assert(number_digits(t) == t);
    assert(all_digits(t));
}

/// Reading back the words of a line written as `a b c` gives `a`, `b`, `c`.
proof fn lemma_three_words(a: nat, b: nat, c: nat)
    ensures
        words(ascii(decimal(a) + seq![0x20u8] + decimal(b) + seq![0x20u8] + decimal(c))) == seq![
            ascii(decimal(a)),
            ascii(decimal(b)),
            ascii(decimal(c)),
        ],
{
    lemma_decimal_text(a);
    lemma_decimal_text(b);
    lemma_decimal_text(c);
    let (ta, tb, tc) = (ascii(decimal(a)), ascii(decimal(b)), ascii(decimal(c)));
    let line = decimal(a) + seq![0x20u8] + decimal(b) + seq![0x20u8] + decimal(c);
    assert(ascii(line) =~= ta + (seq![0x20u32] + (tb + (seq![0x20u32] + tc))));
    lemma_words_prefix(tc, Seq::<u32>::empty());
    assert(tc + Seq::<u32>::empty() =~= tc);
    lemma_words_space(tc);
    lemma_words_prefix(tb, seq![0x20u32] + tc);
    lemma_words_space(tb + (seq![0x20u32] + tc));
    lemma_words_prefix(ta, seq![0x20u32] + (tb + (seq![0x20u32] + tc)));
    assert(words(ascii(line)) =~= seq![ta, tb, tc]);
}

/// Reading back the words of a line written as `a b` gives `a`, `b`.
proof fn lemma_two_words(a: nat, b: nat)
    ensures
        words(ascii(decimal(a) + seq![0x20u8] + decimal(b))) == seq![
            ascii(decimal(a)),
            ascii(decimal(b)),
        ],
{
    lemma_decimal_text(a);
    lemma_decimal_text(b);
    let (ta, tb) = (ascii(decimal(a)), ascii(decimal(b)));
    let line = decimal(a) + seq![0x20u8] + decimal(b);
    assert(ascii(line) =~= ta + (seq![0x20u32] + tb));
    lemma_words_prefix(tb, Seq::<u32>::empty());
    assert(tb + Seq::<u32>::empty() =~= tb);
    lemma_words_space(tb);
    lemma_words_prefix(ta, seq![0x20u32] + tb);
    assert(words(ascii(line)) =~= seq![ta, tb]);
}

/// The text of a pixel line, without its `\n`.
spec fn pixel_text(p: [u8; 3]) -> Seq<u8> {
    decimal(p@[0] as nat) + seq![0x20u8] + decimal(p@[1] as nat) + seq![0x20u8] + decimal(
        p@[2] as nat,
    )
}

proof fn lemma_pixel_text(p: [u8; 3])
    ensures
        pixel_line(p) == pixel_text(p) + seq![0x0Au8],
        is_ascii_bytes(pixel_text(p)),
        forall|k: int| 0 <= k < pixel_text(p).len() ==> #[trigger] pixel_text(p)[k] != 0x0A,
        line_text(pixel_text(p)) == Some(ascii(pixel_text(p))),
        triples(words(ascii(pixel_text(p)))) == seq![p],
{
    let (r, g, b) = (p@[0] as nat, p@[1] as nat, p@[2] as nat);
    lemma_decimal_text(r);
    lemma_decimal_text(g);
    lemma_decimal_text(b);
    let t = pixel_text(p);
    assert(pixel_line(p) =~= t + seq![0x0Au8]);
    assert forall|k: int| 0 <= k < t.len() implies #[trigger] t[k] < 0x80 && t[k] != 0x0A by {
        let la = decimal(r).len() as int;
        let lb = decimal(g).len() as int;
        if k < la {
            assert(t[k] == decimal(r)[k]);
        } else if k == la {
        } else if k < la + 1 + lb {
            assert(t[k] == decimal(g)[k - la - 1]);
        } else if k == la + 1 + lb {
        } else {
            assert(t[k] == decimal(b)[k - la - 2 - lb]);
        }
    }
    lemma_ascii_text(t);
    lemma_three_words(r, g, b);
    let ws = words(ascii(t));
    assert(channel(ws[0]) == p@[0]);
    assert(channel(ws[1]) == p@[1]);
    assert(channel(ws[2]) == p@[2]);
    assert(ws.len() == 3);
    assert(ws.skip(3) =~= Seq::<Seq<u32>>::empty());
    assert(triples(Seq::<Seq<u32>>::empty()) == Seq::<[u8; 3]>::empty());
    let q: [u8; 3] = [channel(ws[0]), channel(ws[1]), channel(ws[2])];
    assert(q =~= p);
    assert(triples(ws) == seq![q] + triples(ws.skip(3)));
    assert(triples(ws) =~= seq![p]);
}

/// The pixel lines, read from where they start, give back the pixels.
proof fn lemma_body_roundtrip(pre: Seq<u8>, ps: Seq<[u8; 3]>)
    ensures
        body_pixels(pre + pixel_lines(ps), pre.len() as int) == Some(ps),
    decreases ps.len(),
{
    let s = pre + pixel_lines(ps);
    if ps.len() == 0 {
        assert(s =~= pre);
        assert(ps =~= Seq::<[u8; 3]>::empty());
    } else {
        let p = ps[0];
        let rest = ps.drop_first();
        lemma_pixel_text(p);
        let t = pixel_text(p);
        let pre2 = pre + pixel_line(p);
        assert(s =~= pre + t + seq![0x0Au8] + pixel_lines(rest));
        lemma_read_line(pre, t, pixel_lines(rest));
        assert(s =~= pre2 + pixel_lines(rest));
        lemma_body_roundtrip(pre2, rest);
        assert(pre.len() < s.len());
        assert(seq![p] + rest =~= ps);
    }
}

/// Trimming leaves text without white space at its ends unchanged.
proof fn lemma_trim_plain(t: Seq<u32>)
    requires
        t.len() > 0,
        !is_space(t[0]),
        !is_space(t.last()),
    ensures
        trim(t) == t,
{
    assert(trim_start(t) == t);
    assert(trim_end(t) == t);
}

proof fn lemma_dimension_values(width: usize, height: usize)
    ensures
        dimension_values(seq![ascii(decimal(width as nat)), ascii(decimal(height as nat))])
            == seq![width, height],
{
    let (w, h) = (width as nat, height as nat);
    lemma_decimal_text(w);
    lemma_decimal_text(h);
    let ws = seq![ascii(decimal(w)), ascii(decimal(h))];
    assert(ws.drop_first() =~= seq![ascii(decimal(h))]);
    assert(ws.drop_first().drop_first() =~= Seq::<Seq<u32>>::empty());
    assert(parse_unsigned(ascii(decimal(w)), usize::MAX as nat) == Some(w));
    assert(parse_unsigned(ascii(decimal(h)), usize::MAX as nat) == Some(h));
    assert(dimension_values(Seq::<Seq<u32>>::empty()) == Seq::<usize>::empty());
    assert(dimension_values(ws.drop_first()) =~= seq![height]);
    assert(dimension_values(ws) =~= seq![width, height]);
}

/// The first line of the writer's output reads as `P3`.
proof fn lemma_first_line(s: Seq<u8>, rest: Seq<u8>)
    requires
        s == seq![0x50u8, 0x33u8] + seq![0x0Au8] + rest,
    ensures
        line_text(line_at(s, 0)) == Some(p3_magic()),
        next_line(s, 0) == 3,
        trim(p3_magic()) == p3_magic(),
{
    let magic = seq![0x50u8, 0x33u8];
    assert(s =~= Seq::<u8>::empty() + magic + seq![0x0Au8] + rest);
    lemma_read_line(Seq::<u8>::empty(), magic, rest);
    assert(is_ascii_bytes(magic));
    lemma_ascii_text(magic);
    assert(ascii(magic) =~= p3_magic());
    lemma_trim_plain(p3_magic());
}

/// The second line of the writer's output is no comment and holds the width and
/// the height.
proof fn lemma_dims_line(s: Seq<u8>, width: usize, height: usize, rest: Seq<u8>)
    requires
        s == seq![0x50u8, 0x33u8, 0x0Au8] + (decimal(width as nat) + seq![0x20u8] + decimal(
            height as nat,
        )) + seq![0x0Au8] + rest,
    ensures
        ({
            let dims = decimal(width as nat) + seq![0x20u8] + decimal(height as nat);
            skip_comments(s, 3) == Ok::<(Seq<u32>, int), PpmError>(
                (ascii(dims), (3 + dims.len() + 1) as int),
            )
        }),
        dimension_values(
            words(ascii(decimal(width as nat) + seq![0x20u8] + decimal(height as nat))),
        ) == seq![width, height],
{
    let (w, h) = (width as nat, height as nat);
    lemma_decimal_text(w);
    lemma_decimal_text(h);
    let dims = decimal(w) + seq![0x20u8] + decimal(h);
    let pre2 = seq![0x50u8, 0x33u8, 0x0Au8];
    assert forall|k: int| 0 <= k < dims.len() implies #[trigger] dims[k] != 0x0A && dims[k]
        < 0x80 by {
        let la = decimal(w).len() as int;
        if k < la {
            assert(dims[k] == decimal(w)[k]);
        } else if k > la {
            assert(dims[k] == decimal(h)[k - la - 1]);
        }
    }
    lemma_read_line(pre2, dims, rest);
    lemma_ascii_text(dims);
    lemma_ascii_concat(decimal(w), seq![0x20u8] + decimal(h));
    assert(dims =~= decimal(w) + (seq![0x20u8] + decimal(h)));
    assert(ascii(dims)[0] == ascii(decimal(w))[0]);
    assert(!is_comment(ascii(dims)));
    lemma_two_words(w, h);
    lemma_dimension_values(width, height);
}

/// The third line of the writer's output reads as `255`.
proof fn lemma_max_line(s: Seq<u8>, pre: Seq<u8>, rest: Seq<u8>)
    requires
        s == pre + seq![0x32u8, 0x35u8, 0x35u8] + seq![0x0Au8] + rest,
    ensures
        line_text(line_at(s, pre.len() as int)) == Some(max_value_text()),
        next_line(s, pre.len() as int) == pre.len() + 4,
        trim(max_value_text()) == max_value_text(),
{
    let max = seq![0x32u8, 0x35u8, 0x35u8];
    lemma_read_line(pre, max, rest);
    assert(is_ascii_bytes(max));
    lemma_ascii_text(max);
    assert(ascii(max) =~= max_value_text());
    lemma_trim_plain(max_value_text());
}

/// The writer's header reads back as the width and the height, with the pixel
/// lines right after it.
pub proof fn lemma_header_roundtrip(width: usize, height: usize, body: Seq<u8>)
    ensures
        spec_read_header(ppm_header_text(width as nat, height as nat) + body) == Ok::<
            (usize, usize, int),
            PpmError,
        >((width, height, ppm_header_text(width as nat, height as nat).len() as int)),
{
    let (w, h) = (width as nat, height as nat);
    let header = ppm_header_text(w, h);
    let s = header + body;
    let dims = decimal(w) + seq![0x20u8] + decimal(h);
    let nl = seq![0x0Au8];
    let max = seq![0x32u8, 0x35u8, 0x35u8];
    assert(s =~= seq![0x50u8, 0x33u8] + seq![0x0Au8] + (dims + nl + max + nl + body));
    lemma_first_line(s, dims + nl + max + nl + body);
    assert(s =~= seq![0x50u8, 0x33u8, 0x0Au8] + dims + seq![0x0Au8] + (max + nl + body));
    lemma_dims_line(s, width, height, max + nl + body);
    let pre3 = seq![0x50u8, 0x33u8, 0x0Au8] + dims + nl;
    assert(s =~= pre3 + max + seq![0x0Au8] + body);
    lemma_max_line(s, pre3, body);
    assert(pre3.len() == 3 + dims.len() + 1);
    assert(header.len() == pre3.len() + 4);
}

/// What the writer puts out, the reader reads back: the same width, height and
/// pixels.
pub proof fn read_ppm_reads_back_write_ppm(width: usize, height: usize, pixels: Seq<[u8; 3]>)
    ensures
        spec_read_ppm(ppm_text(width as nat, height as nat, pixels)) == Ok::<
            (usize, usize, Seq<[u8; 3]>),
            PpmError,
        >((width, height, pixels)),
{
    let header = ppm_header_text(width as nat, height as nat);
    lemma_header_roundtrip(width, height, pixel_lines(pixels));
    lemma_body_roundtrip(header, pixels);
}

pub proof fn lemma_line_end_shift(a: Seq<u8>, b: Seq<u8>, i: int)
    requires
        0 <= i <= b.len(),
    ensures
        line_end(a + b, a.len() + i) == a.len() + line_end(b, i),
    decreases b.len() - i,
{
    let s = a + b;
    if i < b.len() {
        assert(s[a.len() + i] == b[i]);
        if b[i] != 0x0A {
            lemma_line_end_shift(a, b, i + 1);
        }
    }
}

/// Reading lines from inside the second part of a buffer is reading them from
/// that part alone.
proof fn lemma_line_shift(a: Seq<u8>, b: Seq<u8>, i: int)
    requires
        0 <= i <= b.len(),
    ensures
        line_at(a + b, a.len() + i) == line_at(b, i),
        next_line(a + b, a.len() + i) == a.len() + next_line(b, i),
{
    lemma_line_end_shift(a, b, i);
    lemma_line_end(b, i);
    assert(line_at(a + b, a.len() + i) =~= line_at(b, i));
}

proof fn lemma_skip_comments_shift(a: Seq<u8>, b: Seq<u8>, i: int)
    requires
        0 <= i <= b.len(),
    ensures
        skip_comments(a + b, a.len() + i) == (match skip_comments(b, i) {
            Ok((t, p)) => Ok::<(Seq<u32>, int), PpmError>((t, a.len() + p)),
            Err(e) => Err(e),
        }),
    decreases b.len() - i,
{
    lemma_line_shift(a, b, i);
    lemma_line_end(b, i);
    if let Some(t) = line_text(line_at(b, i)) {
        if is_comment(t) {
            if i == b.len() {
                lemma_end_of_input_line(b);
            }
            lemma_skip_comments_shift(a, b, next_line(b, i));
        }
    }
}

pub proof fn lemma_body_shift(a: Seq<u8>, b: Seq<u8>, i: int)
    requires
        0 <= i <= b.len(),
    ensures
        body_pixels(a + b, a.len() + i) == body_pixels(b, i),
    decreases b.len() - i,
{
    if i < b.len() {
        lemma_line_shift(a, b, i);
        lemma_line_end(b, i);
        lemma_body_shift(a, b, next_line(b, i));
    }
}

/// What the header and pixels of a file are, read from where its comment lines
/// start, when everything before that is `pre`.
proof fn lemma_read_after(pre: Seq<u8>, rest: Seq<u8>, s: Seq<u8>)
    requires
        s == pre + rest,
    ensures
        ({
            let k = pre.len() as int;
            match skip_comments(rest, 0) {
                Err(e) => skip_comments(s, k) == Err::<(Seq<u32>, int), PpmError>(e),
                Ok((t, p)) => {
                    &&& 0 <= p <= rest.len()
                    &&& skip_comments(s, k) == Ok::<(Seq<u32>, int), PpmError>((t, k + p))
                    &&& line_at(s, k + p) == line_at(rest, p)
                    &&& next_line(s, k + p) == k + next_line(rest, p)
                    &&& 0 <= next_line(rest, p) <= rest.len()
                    &&& body_pixels(s, k + next_line(rest, p)) == body_pixels(
                        rest,
                        next_line(rest, p),
                    )
                },
            }
        }),
{
    lemma_skip_comments_shift(pre, rest, 0);
    lemma_skip_comments_bounds(rest, 0);
    if let Ok((t, p)) = skip_comments(rest, 0) {
        lemma_line_shift(pre, rest, p);
        lemma_line_end(rest, p);
        lemma_body_shift(pre, rest, next_line(rest, p));
    }
}

/// A comment line right after the first line of a PPM file changes nothing that
/// is read from it: a line that is valid UTF-8 and starts with `#` is skipped.
pub proof fn comment_line_is_skipped(first: Seq<u8>, comment: Seq<u8>, rest: Seq<u8>)
    requires
        forall|k: int| 0 <= k < first.len() ==> #[trigger] first[k] != 0x0A,
        forall|k: int| 0 <= k < comment.len() ==> #[trigger] comment[k] != 0x0A,
        valid_utf8(comment),
        comment.len() > 0,
        comment[0] == 0x23,
    ensures
        spec_read_ppm(first + seq![0x0Au8] + comment + seq![0x0Au8] + rest) == spec_read_ppm(
            first + seq![0x0Au8] + rest,
        ),
{
    let nl = seq![0x0Au8];
    let pre = first + nl;
    let with = first + nl + comment + nl + rest;
    let without = first + nl + rest;
    // The first line is the same in both.
    assert(with =~= Seq::<u8>::empty() + first + nl + (comment + nl + rest));
    lemma_read_line(Seq::<u8>::empty(), first, comment + nl + rest);
    assert(without =~= Seq::<u8>::empty() + first + nl + rest);
    lemma_read_line(Seq::<u8>::empty(), first, rest);
    // In the first file, the comment line is read and skipped.
    assert(with =~= pre + comment + nl + rest);
    lemma_read_line(pre, comment, rest);
    let c0 = comment[0];
    assert(c0 & 0x7F == 0x23) by (bit_vector)
        requires
            c0 == 0x23,
    ;
    assert(valid_first_scalar(comment));
    assert(decode_utf8(comment)[0] == (0x23u32) as char);
    assert(scalars(comment)[0] == 0x23);
    lemma_line_end(with, pre.len() as int);
    let skipped = pre + comment + nl;
    assert(with =~= skipped + rest);
    assert(skip_comments(with, pre.len() as int) == skip_comments(with, skipped.len() as int));
    // From there on, both read the same lines.
    lemma_read_after(skipped, rest, with);
    assert(without =~= pre + rest);
    lemma_read_after(pre, rest, without);
}

/// The first line decides whether the file is read at all: when it is not valid
/// UTF-8 the file is refused for that, and when, trimmed, it is not `P3`, as not
/// a `P3` file.
pub proof fn first_line_must_be_p3(first: Seq<u8>, rest: Seq<u8>)
    requires
        forall|k: int| 0 <= k < first.len() ==> #[trigger] first[k] != 0x0A,
    ensures
        !valid_utf8(first) ==> spec_read_ppm(first + seq![0x0Au8] + rest) == Err::<
            (usize, usize, Seq<[u8; 3]>),
            PpmError,
        >(PpmError::InvalidUtf8),
        valid_utf8(first) && trim(scalars(first)) != seq![0x50u32, 0x33u32] ==> spec_read_ppm(
            first + seq![0x0Au8] + rest,
        ) == Err::<(usize, usize, Seq<[u8; 3]>), PpmError>(PpmError::NotP3),
{
    let s = first + seq![0x0Au8] + rest;
    assert(s =~= Seq::<u8>::empty() + first + seq![0x0Au8] + rest);
    lemma_read_line(Seq::<u8>::empty(), first, rest);
}

/// After `P3` and the comment lines, the next line must hold exactly two numbers,
/// the width and the height; otherwise the file is refused for its dimensions.
pub proof fn dimensions_must_be_two_numbers(first: Seq<u8>, dims: Seq<u8>, rest: Seq<u8>)
    requires
        forall|k: int| 0 <= k < first.len() ==> #[trigger] first[k] != 0x0A,
        forall|k: int| 0 <= k < dims.len() ==> #[trigger] dims[k] != 0x0A,
        valid_utf8(first),
        trim(scalars(first)) == seq![0x50u32, 0x33u32],
        valid_utf8(dims),
        scalars(dims).len() == 0 || scalars(dims)[0] != 0x23,
        dimension_values(words(scalars(dims))).len() != 2,
    ensures
        spec_read_ppm(first + seq![0x0Au8] + dims + seq![0x0Au8] + rest) == Err::<
            (usize, usize, Seq<[u8; 3]>),
            PpmError,
        >(PpmError::InvalidDimensions),
{
    let nl = seq![0x0Au8];
    let s = first + nl + dims + nl + rest;
    assert(s =~= Seq::<u8>::empty() + first + nl + (dims + nl + rest));
    lemma_read_line(Seq::<u8>::empty(), first, dims + nl + rest);
    assert(seq![0x50u32, 0x33u32] =~= p3_magic());
    assert(s =~= (first + nl) + dims + nl + rest);
    lemma_read_line(first + nl, dims, rest);
    lemma_line_end(s, (first.len() + 1) as int);
}

/// After the dimensions comes the line that, trimmed, must be `255`; otherwise
/// the file is refused for its maximum value.
pub proof fn max_value_must_be_255(first: Seq<u8>, dims: Seq<u8>, max: Seq<u8>, rest: Seq<u8>)
    requires
        forall|k: int| 0 <= k < first.len() ==> #[trigger] first[k] != 0x0A,
        forall|k: int| 0 <= k < dims.len() ==> #[trigger] dims[k] != 0x0A,
        forall|k: int| 0 <= k < max.len() ==> #[trigger] max[k] != 0x0A,
        valid_utf8(first),
        trim(scalars(first)) == seq![0x50u32, 0x33u32],
        valid_utf8(dims),
        scalars(dims).len() == 0 || scalars(dims)[0] != 0x23,
        dimension_values(words(scalars(dims))).len() == 2,
        valid_utf8(max),
        trim(scalars(max)) != seq![0x32u32, 0x35u32, 0x35u32],
    ensures
        spec_read_ppm(first + seq![0x0Au8] + dims + seq![0x0Au8] + max + seq![0x0Au8] + rest)
            == Err::<(usize, usize, Seq<[u8; 3]>), PpmError>(PpmError::InvalidMaxValue),
{
    let nl = seq![0x0Au8];
    let s = first + nl + dims + nl + max + nl + rest;
    assert(s =~= Seq::<u8>::empty() + first + nl + (dims + nl + max + nl + rest));
    lemma_read_line(Seq::<u8>::empty(), first, dims + nl + max + nl + rest);
    assert(seq![0x50u32, 0x33u32] =~= p3_magic());
    assert(seq![0x32u32, 0x35u32, 0x35u32] =~= max_value_text());
    assert(s =~= (first + nl) + dims + nl + (max + nl + rest));
    lemma_read_line(first + nl, dims, max + nl + rest);
    lemma_line_end(s, (first.len() + 1) as int);
    let pre = first + nl + dims + nl;
    assert(s =~= pre + max + nl + rest);
    lemma_read_line(pre, max, rest);
}

} // verus!

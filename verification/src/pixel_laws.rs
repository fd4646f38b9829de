//! Laws of reading pixels: how a line's words become pixels, how the lines of the
//! pixel data add up, and what the dimensions line yields.
use vstd::prelude::*;
use crate::lines::{lemma_line_end, line_at, line_end, line_text, next_line, scalars};
use crate::ppm::{
    body_pixels, channel, dimension_values, is_comment, lemma_end_of_input_line,
    ppm_header_text, skip_comments, spec_read_header, spec_read_ppm, triples, PpmError,
};
use crate::ppm_laws::{lemma_body_shift, lemma_header_roundtrip, lemma_read_line};
use crate::text::{decimal, parse_unsigned, words};
use crate::text_laws::{ascii, decimal_reads_as_its_number, non_digit_is_refused};

verus! {

/// Pixels read from two stretches of lines, one after the other; nothing when
/// either could not be read.
pub open spec fn join_pixels(a: Option<Seq<[u8; 3]>>, b: Option<Seq<[u8; 3]>>) -> Option<
    Seq<[u8; 3]>,
> {
    match (a, b) {
        (Some(x), Some(y)) => Some(x + y),
        _ => None,
    }
}

/// The words of a line become pixels three at a time: `n` words give `n / 3`
/// pixels, pixel `i` made of words `3i`, `3i + 1` and `3i + 2`.
pub proof fn triples_take_three_words_at_a_time(ws: Seq<Seq<u32>>)
    ensures
        triples(ws).len() == ws.len() / 3,
        forall|i: int|
            0 <= i < ws.len() / 3 ==> #[trigger] triples(ws)[i] == [
                channel(ws[3 * i]),
                channel(ws[3 * i + 1]),
                channel(ws[3 * i + 2]),
            ],
    decreases ws.len(),
{
    if ws.len() >= 3 {
        let rest = ws.skip(3);
        triples_take_three_words_at_a_time(rest);
        assert(rest.len() / 3 == ws.len() / 3 - 1);
        assert forall|i: int| 0 <= i < ws.len() / 3 implies #[trigger] triples(ws)[i] == [
            channel(ws[3 * i]),
            channel(ws[3 * i + 1]),
            channel(ws[3 * i + 2]),
        ] by {
            if i > 0 {
                assert(triples(ws)[i] == triples(rest)[i - 1]);
                assert(rest[3 * (i - 1)] == ws[3 * i]);
                assert(rest[3 * (i - 1) + 1] == ws[3 * i + 1]);
                assert(rest[3 * (i - 1) + 2] == ws[3 * i + 2]);
            }
        }
    }
}

/// A colour channel written in decimal reads as its value when it is at most
/// 255, and as 0 when it is larger or is not a number.
pub proof fn channel_reads_a_byte(n: nat, a: Seq<u32>, c: u32, b: Seq<u32>)
    requires
        !(0x30 <= c && c <= 0x39),
        !(a.len() == 0 && c == 0x2B && b.len() > 0),
    ensures
        channel(ascii(decimal(n))) == (if n <= 255 {
            n as u8
        } else {
            0u8
        }),
        channel(a + seq![c] + b) == 0,
{
    decimal_reads_as_its_number(n, 255);
    non_digit_is_refused(a, c, b, 255);
}

/// The numbers of the dimensions line are those of its words, in order: a word
/// written in decimal gives its value, a word that is no number gives nothing.
pub proof fn dimension_values_word_by_word(
    ws1: Seq<Seq<u32>>,
    ws2: Seq<Seq<u32>>,
    n: nat,
    a: Seq<u32>,
    c: u32,
    b: Seq<u32>,
)
    requires
        n <= usize::MAX,
        !(0x30 <= c && c <= 0x39),
        !(a.len() == 0 && c == 0x2B && b.len() > 0),
    ensures
        dimension_values(ws1 + ws2) == dimension_values(ws1) + dimension_values(ws2),
        dimension_values(seq![ascii(decimal(n))]) == seq![n as usize],
        dimension_values(seq![a + seq![c] + b]) == Seq::<usize>::empty(),
        dimension_values(Seq::<Seq<u32>>::empty()) == Seq::<usize>::empty(),
{
    lemma_dimension_values_concat(ws1, ws2);
    decimal_reads_as_its_number(n, usize::MAX as nat);
    non_digit_is_refused(a, c, b, usize::MAX as nat);
    let one = seq![ascii(decimal(n))];
    assert(one.drop_first() =~= Seq::<Seq<u32>>::empty());
    assert(dimension_values(Seq::<Seq<u32>>::empty()) == Seq::<usize>::empty());
    assert(one[0] == ascii(decimal(n)));
    assert(dimension_values(one) =~= seq![n as usize]);
    let other = seq![a + seq![c] + b];
    assert(other.drop_first() =~= Seq::<Seq<u32>>::empty());
}

proof fn lemma_dimension_values_concat(ws1: Seq<Seq<u32>>, ws2: Seq<Seq<u32>>)
    ensures
        dimension_values(ws1 + ws2) == dimension_values(ws1) + dimension_values(ws2),
    decreases ws1.len(),
{
    if ws1.len() == 0 {
        assert(ws1 + ws2 =~= ws2);
        assert(dimension_values(ws1) + dimension_values(ws2) =~= dimension_values(ws2));
    } else {
        assert((ws1 + ws2)[0] == ws1[0]);
        assert((ws1 + ws2).drop_first() =~= ws1.drop_first() + ws2);
        lemma_dimension_values_concat(ws1.drop_first(), ws2);
        assert(dimension_values(ws1 + ws2) =~= dimension_values(ws1) + dimension_values(ws2));
    }
}

proof fn lemma_line_end_before_newline(x: Seq<u8>, y: Seq<u8>, q: int)
    requires
        0 <= q < x.len(),
        x.last() == 0x0A,
    ensures
        line_end(x + y, q) == line_end(x, q),
        line_end(x, q) < x.len(),
    decreases x.len() - q,
{
    assert((x + y)[q] == x[q]);
    if x[q] != 0x0A {
        assert(q + 1 < x.len());
        lemma_line_end_before_newline(x, y, q + 1);
    }
}

proof fn lemma_body_prefix(x: Seq<u8>, y: Seq<u8>, q: int)
    requires
        0 <= q <= x.len(),
        x.len() > 0,
        x.last() == 0x0A,
    ensures
        body_pixels(x + y, q) == join_pixels(body_pixels(x, q), body_pixels(x + y, x.len() as int)),
    decreases x.len() - q,
{
    if q == x.len() {
        if let Some(r) = body_pixels(x + y, q) {
            assert(Seq::<[u8; 3]>::empty() + r =~= r);
        }
    } else {
        lemma_line_end_before_newline(x, y, q);
        lemma_line_end(x, q);
        assert(line_at(x + y, q) =~= line_at(x, q));
        assert(next_line(x + y, q) == next_line(x, q));
        lemma_body_prefix(x, y, next_line(x, q));
        if let Some(t) = line_text(line_at(x, q)) {
            if let (Some(r1), Some(r2)) = (body_pixels(x, next_line(x, q)), body_pixels(
                x + y,
                x.len() as int,
            )) {
                assert(triples(words(t)) + (r1 + r2) =~= (triples(words(t)) + r1) + r2);
            }
        }
    }
}

/// The pixel data is read line by line: when its first part ends with a newline,
/// its pixels are those of the first part followed by those of the rest, whatever
/// stands before it in the file.
pub proof fn pixel_lines_are_read_in_turn(pre: Seq<u8>, a: Seq<u8>, b: Seq<u8>)
    requires
        a.len() > 0,
        a.last() == 0x0A,
    ensures
        body_pixels(pre + a + b, pre.len() as int) == join_pixels(
            body_pixels(a, 0),
            body_pixels(b, 0),
        ),
{
    let x = pre + a;
    assert(x.last() == 0x0A);
    lemma_body_prefix(x, b, pre.len() as int);
    lemma_body_shift(pre, a, 0);
    lemma_body_shift(x, b, 0);
}

proof fn lemma_line_end_no_newline(l: Seq<u8>, p: int)
    requires
        0 <= p <= l.len(),
        forall|k: int| 0 <= k < l.len() ==> #[trigger] l[k] != 0x0A,
    ensures
        line_end(l, p) == l.len(),
    decreases l.len() - p,
{
    if p < l.len() {
        lemma_line_end_no_newline(l, p + 1);
    }
}

/// A single line of pixel data, with or without its newline, gives the pixels of
/// its words taken three at a time; nothing when it is not valid UTF-8.
pub proof fn one_pixel_line(l: Seq<u8>)
    requires
        forall|k: int| 0 <= k < l.len() ==> #[trigger] l[k] != 0x0A,
    ensures
        body_pixels(l, 0) == (match line_text(l) {
            Some(t) => Some(triples(words(t))),
            None => None,
        }),
        body_pixels(l + seq![0x0Au8], 0) == body_pixels(l, 0),
{
    let t = l + seq![0x0Au8];
    assert(t =~= Seq::<u8>::empty() + l + seq![0x0Au8] + Seq::<u8>::empty());
    lemma_read_line(Seq::<u8>::empty(), l, Seq::<u8>::empty());
    assert(line_at(t, 0) == l);
    assert(next_line(t, 0) == t.len());
    assert(body_pixels(t, t.len() as int) == Some(Seq::<[u8; 3]>::empty()));
    assert(body_pixels(l, l.len() as int) == Some(Seq::<[u8; 3]>::empty()));
    if let Some(x) = line_text(l) {
        assert(triples(words(x)) + Seq::<[u8; 3]>::empty() =~= triples(words(x)));
    }
    if l.len() == 0 {
        lemma_end_of_input_line(l);
        assert(line_at(l, 0) =~= l);
        assert(scalars(l) =~= Seq::<u32>::empty());
        assert(words(Seq::<u32>::empty()) == Seq::<Seq<u32>>::empty());
        assert(triples(Seq::<Seq<u32>>::empty()) == Seq::<[u8; 3]>::empty());
    } else {
        lemma_line_end_no_newline(l, 0);
        assert(line_at(l, 0) =~= l);
        assert(next_line(l, 0) == l.len());
    }
}

/// An empty line in the pixel data adds nothing, and reading goes on after it.
pub proof fn empty_line_adds_nothing(width: usize, height: usize, a: Seq<u8>, b: Seq<u8>)
    requires
        a.len() == 0 || a.last() == 0x0A,
    ensures
        spec_read_ppm(ppm_header_text(width as nat, height as nat) + a + seq![0x0Au8] + b)
            == spec_read_ppm(ppm_header_text(width as nat, height as nat) + a + b),
{
    let h = ppm_header_text(width as nat, height as nat);
    let nl = seq![0x0Au8];
    lemma_header_roundtrip(width, height, a + nl + b);
    lemma_header_roundtrip(width, height, a + b);
    assert(h + a + nl + b =~= h + (a + nl + b));
    assert(h + a + b =~= h + (a + b));
    one_pixel_line(Seq::<u8>::empty());
    assert(Seq::<u8>::empty() + nl =~= nl);
    assert(body_pixels(nl, 0) == Some(Seq::<[u8; 3]>::empty()));
    pixel_lines_are_read_in_turn(Seq::<u8>::empty(), nl, b);
    assert(Seq::<u8>::empty() + nl + b =~= nl + b);
    if let Some(r) = body_pixels(b, 0) {
        assert(Seq::<[u8; 3]>::empty() + r =~= r);
    }
    if a.len() == 0 {
        assert(h + a + nl + b =~= h + nl + b);
        pixel_lines_are_read_in_turn(h, nl, b);
        assert(h + a + b =~= h + b);
        lemma_body_shift(h, b, 0);
        assert(h + b =~= h + b);
    } else {
        assert(h + a + nl + b =~= h + a + (nl + b));
        pixel_lines_are_read_in_turn(h, a, nl + b);
        pixel_lines_are_read_in_turn(h, a, b);
    }
}

/// Positions in `s` and in `s` with a newline added that read the same lines from
/// there on: the same position, or the end of `s` and the end of the longer one.
spec fn same_reading(n: int, p: int, q: int) -> bool {
    0 <= p <= n && (q == p || (p == n && q == n + 1))
}

proof fn lemma_line_end_newline_added(s: Seq<u8>, p: int)
    requires
        0 <= p <= s.len(),
    ensures
        line_end(s + seq![0x0Au8], p) == line_end(s, p),
    decreases s.len() - p,
{
    let t = s + seq![0x0Au8];
    assert(t[p] == (if p < s.len() {
        s[p]
    } else {
        0x0Au8
    }));
    if p < s.len() && s[p] != 0x0A {
        lemma_line_end_newline_added(s, p + 1);
    }
}

proof fn lemma_same_line(s: Seq<u8>, p: int, q: int)
    requires
        same_reading(s.len() as int, p, q),
    ensures
        line_at(s, p) == line_at(s + seq![0x0Au8], q),
        same_reading(s.len() as int, next_line(s, p), next_line(s + seq![0x0Au8], q)),
{
    let t = s + seq![0x0Au8];
    lemma_line_end(s, p);
    if q == p {
        lemma_line_end_newline_added(s, p);
        assert(line_at(s, p) =~= line_at(t, q));
    } else {
        assert(line_at(s, p) =~= Seq::<u8>::empty());
        assert(line_at(t, q) =~= Seq::<u8>::empty());
    }
}

proof fn lemma_same_comments(s: Seq<u8>, p: int, q: int)
    requires
        same_reading(s.len() as int, p, q),
    ensures
        match (skip_comments(s, p), skip_comments(s + seq![0x0Au8], q)) {
            (Ok((x1, p1)), Ok((x2, q1))) => x1 == x2 && same_reading(s.len() as int, p1, q1),
            (Err(e1), Err(e2)) => e1 == e2,
            _ => false,
        },
    decreases s.len() - p,
{
    let t = s + seq![0x0Au8];
    lemma_same_line(s, p, q);
    lemma_line_end(s, p);
    if let Some(x) = line_text(line_at(s, p)) {
        if is_comment(x) {
            if p == s.len() {
                lemma_end_of_input_line(s);
            }
            lemma_same_comments(s, next_line(s, p), next_line(t, q));
        }
    }
}

proof fn lemma_same_body(s: Seq<u8>, p: int, q: int)
    requires
        same_reading(s.len() as int, p, q),
    ensures
        body_pixels(s, p) == body_pixels(s + seq![0x0Au8], q),
    decreases s.len() - p,
{
    let t = s + seq![0x0Au8];
    lemma_same_line(s, p, q);
    lemma_line_end(s, p);
    if p == s.len() {
        if q == s.len() {
            lemma_end_of_input_line(s);
            assert(line_at(t, q) == line_at(s, p));
            assert(words(Seq::<u32>::empty()) == Seq::<Seq<u32>>::empty());
            assert(triples(Seq::<Seq<u32>>::empty()) == Seq::<[u8; 3]>::empty());
            assert(next_line(t, q) == t.len());
            assert(body_pixels(t, t.len() as int) == Some(Seq::<[u8; 3]>::empty()));
            assert(Seq::<[u8; 3]>::empty() + Seq::<[u8; 3]>::empty() =~= Seq::<[u8; 3]>::empty());
        }
    } else {
        lemma_same_body(s, next_line(s, p), next_line(t, q));
    }
}

/// Reading does not depend on a newline at the end: a file with a newline added
/// reads exactly as the file without it, so its last line is read once, whether
/// or not it ends in a newline.
pub proof fn final_newline_changes_nothing(s: Seq<u8>)
    ensures
        spec_read_ppm(s + seq![0x0Au8]) == spec_read_ppm(s),
{
    let t = s + seq![0x0Au8];
    let n = s.len() as int;
    lemma_same_line(s, 0, 0);
    lemma_line_end(s, 0);
    if let Some(first) = line_text(line_at(s, 0)) {
        lemma_same_comments(s, next_line(s, 0), next_line(t, 0));
        if let (Ok((d, p1)), Ok((_, q1))) = (
            skip_comments(s, next_line(s, 0)),
            skip_comments(t, next_line(t, 0)),
        ) {
            lemma_same_line(s, p1, q1);
            lemma_line_end(s, p1);
            lemma_same_body(s, next_line(s, p1), next_line(t, q1));
        }
    }
}

} // verus!

//! The plain PPM (`P3`) image format: reading a texture from the bytes of a file,
//! writing an image as the bytes of a file, and looking up a texel.
use vstd::prelude::*;
use vstd::utf8::*;
use crate::lines::{
    after_line, decode_text, find_line_end, lemma_line_end, line_at, line_text, next_line, scalars,
};
use crate::text::{decimal, push_decimal, parse_bounded, parse_unsigned, split_words, trim, trim_bounds, views_of, words};

verus! {

/// An image: `width` by `height` RGB pixels, row by row.
///
/// The pixels are what the file held; their number is not checked against
/// `width * height`.
#[derive(Clone, Debug)]
pub struct Texture {
    pub width: usize,
    pub height: usize,
    pub pixels: Vec<[u8; 3]>,
}

impl Texture {
    /// The texel that coordinates fall on, each taken modulo the texture's size:
    /// the pixel at column `x % width` of row `y % height`.
    pub fn texel_at(&self, x: usize, y: usize) -> (c: [u8; 3])
        requires
            self.width > 0,
            self.height > 0,
            (y % self.height) * self.width + x % self.width < self.pixels@.len(),
        ensures
            c == self.pixels@[(y % self.height) * self.width + x % self.width],
    {
        let tx = x % self.width;
        let ty = y % self.height;
        let n = self.pixels.len();
        assert(ty * self.width + tx < n);
        assert(ty * self.width <= ty * self.width + tx);
        self.pixels[ty * self.width + tx]
    }
}

/// Why a PPM file was refused.
#[derive(Clone, Copy, Debug, PartialEq, Eq)]
pub enum PpmError {
    /// A line that was read is not valid UTF-8.
    InvalidUtf8,
    /// The first line, trimmed, is not `P3`.
    NotP3,
    /// The dimensions line does not hold exactly two numbers.
    InvalidDimensions,
    /// The line after the dimensions, trimmed, is not `255`.
    InvalidMaxValue,
}

/// `P3`.
pub open spec fn p3_magic() -> Seq<u32> {
    seq![0x50u32, 0x33u32]
}

/// `255`.
pub open spec fn max_value_text() -> Seq<u32> {
    seq![0x32u32, 0x35u32, 0x35u32]
}

/// A line that starts with `#`.
pub open spec fn is_comment(t: Seq<u32>) -> bool {
    t.len() > 0 && t[0] == 0x23
}

pub proof fn lemma_end_of_input_line(s: Seq<u8>)
    ensures
        line_text(line_at(s, s.len() as int)) == Some(Seq::<u32>::empty()),
{
    assert(line_at(s, s.len() as int) =~= Seq::<u8>::empty());
    assert(scalars(Seq::<u8>::empty()) =~= Seq::<u32>::empty());
}

/// Reads lines from `pos` on, skipping those that start with `#`: the first
/// other line as text, and where the line after it starts.
pub open spec fn skip_comments(s: Seq<u8>, pos: int) -> Result<(Seq<u32>, int), PpmError>
    decreases s.len() - pos,
    when 0 <= pos <= s.len()
{
    match line_text(line_at(s, pos)) {
        None => Err(PpmError::InvalidUtf8),
        Some(t) => if is_comment(t) {
            proof {
                lemma_line_end(s, pos);
                if pos == s.len() {
                    lemma_end_of_input_line(s);
                }
            }
            skip_comments(s, next_line(s, pos))
        } else {
            Ok((t, next_line(s, pos)))
        },
    }
}

/// The numbers among the words, as `usize` reads them; words that are not such a
/// number are left out.
pub open spec fn dimension_values(ws: Seq<Seq<u32>>) -> Seq<usize>
    decreases ws.len(),
{
    if ws.len() == 0 {
        seq![]
    } else {
        match parse_unsigned(ws[0], usize::MAX as nat) {
            Some(v) => seq![v as usize] + dimension_values(ws.drop_first()),
            None => dimension_values(ws.drop_first()),
        }
    }
}

/// A word as a colour channel: its value as `u8` reads it, 0 when it is not one.
pub open spec fn channel(tok: Seq<u32>) -> u8 {
    match parse_unsigned(tok, 255) {
        Some(v) => v as u8,
        None => 0,
    }
}

/// The pixels of a line's words: each run of three words, from the start, is one
/// pixel; one or two words left over at the end are dropped.
pub open spec fn triples(ws: Seq<Seq<u32>>) -> Seq<[u8; 3]>
    decreases ws.len(),
{
    if ws.len() < 3 {
        seq![]
    } else {
        seq![[channel(ws[0]), channel(ws[1]), channel(ws[2])]] + triples(ws.skip(3))
    }
}

/// The header of a PPM file: its width, its height, and where its pixel lines
/// start; or why it is refused.
pub open spec fn spec_read_header(s: Seq<u8>) -> Result<(usize, usize, int), PpmError> {
    match line_text(line_at(s, 0)) {
        None => Err(PpmError::InvalidUtf8),
        Some(first) => if trim(first) != p3_magic() {
            Err(PpmError::NotP3)
        } else {
            match skip_comments(s, next_line(s, 0)) {
                Err(e) => Err(e),
                Ok((dims_line, after_dims)) => {
                    let dims = dimension_values(words(dims_line));
                    if dims.len() != 2 {
                        Err(PpmError::InvalidDimensions)
                    } else {
                        match line_text(line_at(s, after_dims)) {
                            None => Err(PpmError::InvalidUtf8),
                            Some(max) => if trim(max) != max_value_text() {
                                Err(PpmError::InvalidMaxValue)
                            } else {
                                Ok((dims[0], dims[1], next_line(s, after_dims)))
                            },
                        }
                    }
                }
            }
        },
    }
}

/// The pixels of the lines from `pos` to the end, in order; nothing when one of
/// those lines is not valid UTF-8.
pub open spec fn body_pixels(s: Seq<u8>, pos: int) -> Option<Seq<[u8; 3]>>
    decreases s.len() - pos,
    when 0 <= pos <= s.len()
{
    if pos >= s.len() {
        Some(seq![])
    } else {
        match line_text(line_at(s, pos)) {
            None => None,
            Some(t) => {
                proof {
                    lemma_line_end(s, pos);
                }
                match body_pixels(s, next_line(s, pos)) {
                    None => None,
                    Some(rest) => Some(triples(words(t)) + rest),
                }
            },
        }
    }
}

/// What reading a PPM file with these bytes gives: width, height and pixels, or
/// why it is refused.
pub open spec fn spec_read_ppm(s: Seq<u8>) -> Result<(usize, usize, Seq<[u8; 3]>), PpmError> {
    match spec_read_header(s) {
        Err(e) => Err(e),
        Ok((w, h, body)) => match body_pixels(s, body) {
            None => Err(PpmError::InvalidUtf8),
            Some(px) => Ok((w, h, px)),
        },
    }
}

/// Whether the trimmed text is exactly `lit`.
fn trimmed_is(t: &[u32], lit: &[u32]) -> (r: bool)
    ensures
        r == (trim(t@) == lit@),
{
    let (a, b) = trim_bounds(t);
    if b - a != lit.len() {
        return false;
    }
    let mut k: usize = 0;
    while k < lit.len()
        invariant
            k <= lit@.len(),
            b - a == lit@.len(),
            a <= b <= t@.len(),
            t@.subrange(a as int, b as int) == trim(t@),
            forall|j: int| 0 <= j < k ==> t@[a + j] == lit@[j],
        decreases lit@.len() - k,
    {
        if t[a + k] != lit[k] {
            assert(trim(t@)[k as int] != lit@[k as int]);
            return false;
        }
        k = k + 1;
    }
    assert(trim(t@) =~= lit@);
    true
}

/// Reads lines from `start` on, skipping comment lines.
fn skip_comment_lines(input: &[u8], start: usize) -> (r: Result<(Vec<u32>, usize), PpmError>)
    requires
        start <= input@.len(),
    ensures
        r matches Ok((t, p)) ==> skip_comments(input@, start as int) == Ok::<
            (Seq<u32>, int),
            PpmError,
        >((t@, p as int)),
        r matches Err(e) ==> skip_comments(input@, start as int) == Err::<(Seq<u32>, int), PpmError>(
            e,
        ),
{
    let mut pos = start;
    loop
        invariant
            start <= pos <= input@.len(),
            skip_comments(input@, start as int) == skip_comments(input@, pos as int),
        decreases input@.len() - pos,
    {
        let e = find_line_end(input, pos);
        let n = after_line(input, pos, e);
        proof {
            lemma_line_end(input@, pos as int);
        }
        match decode_text(input, pos, e) {
            None => {
                return Err(PpmError::InvalidUtf8);
            },
            Some(t) => {
                if t.len() > 0 && t[0] == 0x23 {
                    proof {
                        if pos == input@.len() {
                            lemma_end_of_input_line(input@);
                        }
                    }
                    pos = n;
                } else {
                    return Ok((t, n));
                }
            },
        }
    }
}

/// The numbers among the words, as `usize` reads them.
fn dimension_values_of(ws: &Vec<Vec<u32>>) -> (r: Vec<usize>)
    ensures
        r@ == dimension_values(views_of(ws@)),
{
    let mut out: Vec<usize> = Vec::new();
    let mut k: usize = 0;
    assert(views_of(ws@).skip(0) =~= views_of(ws@));
    while k < ws.len()
        invariant
            k <= ws@.len(),
            dimension_values(views_of(ws@)) == out@ + dimension_values(views_of(ws@).skip(k as int)),
        decreases ws@.len() - k,
    {
        let ghost rest = views_of(ws@).skip(k as int);
        assert(rest.drop_first() =~= views_of(ws@).skip(k + 1));
        assert(rest[0] == ws@[k as int]@);
        match parse_bounded(ws[k].as_slice(), usize::MAX as u64) {
            Some(v) => {
                let ghost before = out@;
                out.push(v as usize);
                assert(out@ + dimension_values(views_of(ws@).skip(k + 1)) =~= before
                    + dimension_values(rest));
            },
            None => {},
        }
        k = k + 1;
    }
    assert(out@ + dimension_values(views_of(ws@).skip(k as int)) =~= out@);
    out
}

/// A word as a colour channel.
fn channel_of(tok: &[u32]) -> (r: u8)
    ensures
        r == channel(tok@),
{
    match parse_bounded(tok, 255) {
        Some(v) => v as u8,
        None => 0,
    }
}

/// The pixels of one line of text.
fn line_pixels(t: &[u32]) -> (r: Vec<[u8; 3]>)
    ensures
        r@ == triples(words(t@)),
{
    let ws = split_words(t);
    let ghost vs = views_of(ws@);
    let mut out: Vec<[u8; 3]> = Vec::new();
    let mut k: usize = 0;
    assert(vs.skip(0) =~= vs);
    while ws.len() - k >= 3
        invariant
            k <= ws@.len(),
            vs == views_of(ws@),
            vs == words(t@),
            triples(vs) == out@ + triples(vs.skip(k as int)),
        decreases ws@.len() - k,
    {
        let ghost rest = vs.skip(k as int);
        assert(rest.skip(3) =~= vs.skip(k + 3));
        assert(rest[0] == ws@[k as int]@ && rest[1] == ws@[k + 1]@ && rest[2] == ws@[k + 2]@);
        let p: [u8; 3] = [
            channel_of(ws[k].as_slice()),
            channel_of(ws[k + 1].as_slice()),
            channel_of(ws[k + 2].as_slice()),
        ];
        assert(p =~= [channel(rest[0]), channel(rest[1]), channel(rest[2])]);
        let ghost before = out@;
        out.push(p);
        assert(out@ + triples(vs.skip(k + 3)) =~= before + triples(rest));
        k = k + 3;
    }
    assert(out@ + triples(vs.skip(k as int)) =~= out@);
    out
}

/// Reads the header of a PPM file: width, height, and where the pixel lines start.
///
/// The first line, trimmed, must be `P3`; then come any number of lines that
/// start with `#`; then a line whose words hold exactly two numbers, the width
/// and the height; then a line that, trimmed, is `255`.
pub fn read_ppm_header(input: &[u8]) -> (r: Result<(usize, usize, usize), PpmError>)
    ensures
        r matches Ok((w, h, p)) ==> spec_read_header(input@) == Ok::<
            (usize, usize, int),
            PpmError,
        >((w, h, p as int)),
        r matches Err(e) ==> spec_read_header(input@) == Err::<(usize, usize, int), PpmError>(e),
{
    let e0 = find_line_end(input, 0);
    let n0 = after_line(input, 0, e0);
    let first = match decode_text(input, 0, e0) {
        None => {
            return Err(PpmError::InvalidUtf8);
        },
        Some(t) => t,
    };
    let p3: [u32; 2] = [0x50, 0x33];
    assert(p3@ =~= p3_magic());
    if !trimmed_is(first.as_slice(), p3.as_slice()) {
        return Err(PpmError::NotP3);
    }
    let (dims_line, after_dims) = match skip_comment_lines(input, n0) {
        Err(e) => {
            return Err(e);
        },
        Ok(found) => found,
    };
    let ws = split_words(dims_line.as_slice());
    let dims = dimension_values_of(&ws);
    if dims.len() != 2 {
        return Err(PpmError::InvalidDimensions);
    }
    proof {
        assert(skip_comments(input@, n0 as int) matches Ok((_, p)) && 0 <= p <= input@.len()) by {
            lemma_skip_comments_bounds(input@, n0 as int);
        }
    }
    let e2 = find_line_end(input, after_dims);
    let n2 = after_line(input, after_dims, e2);
    let max = match decode_text(input, after_dims, e2) {
        None => {
            return Err(PpmError::InvalidUtf8);
        },
        Some(t) => t,
    };
    let m255: [u32; 3] = [0x32, 0x35, 0x35];
    assert(m255@ =~= max_value_text());
    if !trimmed_is(max.as_slice(), m255.as_slice()) {
        return Err(PpmError::InvalidMaxValue);
    }
    Ok((dims[0], dims[1], n2))
}

pub proof fn lemma_skip_comments_bounds(s: Seq<u8>, pos: int)
    requires
        0 <= pos <= s.len(),
    ensures
        skip_comments(s, pos) matches Ok((_, p)) ==> pos <= p <= s.len(),
    decreases s.len() - pos,
{
    lemma_line_end(s, pos);
    if let Some(t) = line_text(line_at(s, pos)) {
        if is_comment(t) {
            if pos == s.len() {
                lemma_end_of_input_line(s);
            }
            lemma_skip_comments_bounds(s, next_line(s, pos));
        }
    }
}

/// Reads a texture from the bytes of a plain PPM (`P3`) file.
///
/// After the header (see [`read_ppm_header`]), each following line gives
/// pixels: its words, three at a time, are the red, green and blue values; a word
/// that is not a number from 0 to 255 counts as 0, and one or two words left
/// over at the end of a line are dropped. Every line that is read must be valid
/// UTF-8.
pub fn read_ppm(input: &[u8]) -> (r: Result<Texture, PpmError>)
    requires
        spec_read_header(input@) matches Ok((w, h, _)) ==> w * h * 3 <= isize::MAX,
    ensures
        r matches Ok(t) ==> spec_read_ppm(input@) == Ok::<(usize, usize, Seq<[u8; 3]>), PpmError>(
            (t.width, t.height, t.pixels@),
        ),
        r matches Err(e) ==> spec_read_ppm(input@) == Err::<
            (usize, usize, Seq<[u8; 3]>),
            PpmError,
        >(e),
{
    let (width, height, body) = match read_ppm_header(input) {
        Err(e) => {
            return Err(e);
        },
        Ok(header) => header,
    };
    proof {
        lemma_header_bounds(input@);
    }
    let mut pixels: Vec<[u8; 3]> = Vec::with_capacity(width * height);
    let mut pos = body;
    assert(body_pixels(input@, body as int) matches Some(r) ==> pixels@ + r =~= r);
    while pos < input.len()
        invariant
            body <= pos <= input@.len(),
            spec_read_header(input@) == Ok::<(usize, usize, int), PpmError>(
                (width, height, body as int),
            ),
            body_pixels(input@, body as int) == (match body_pixels(input@, pos as int) {
                Some(r) => Some(pixels@ + r),
                None => None,
            }),
        decreases input@.len() - pos,
    {
        let e = find_line_end(input, pos);
        let n = after_line(input, pos, e);
        proof {
            lemma_line_end(input@, pos as int);
        }
        match decode_text(input, pos, e) {
            None => {
                assert(body_pixels(input@, pos as int) is None);
                return Err(PpmError::InvalidUtf8);
            },
            Some(t) => {
                let mut line = line_pixels(t.as_slice());
                let ghost before = pixels@;
                let ghost here = line@;
                pixels.append(&mut line);
                proof {
                    if let Some(r) = body_pixels(input@, n as int) {
                        assert(pixels@ + r =~= before + (here + r));
                    }
                }
                pos = n;
            },
        }
    }
    assert(pixels@ + Seq::<[u8; 3]>::empty() =~= pixels@);
    Ok(Texture { width, height, pixels })
}

proof fn lemma_header_bounds(s: Seq<u8>)
    ensures
        spec_read_header(s) matches Ok((_, _, p)) ==> 0 <= p <= s.len(),
{
    lemma_line_end(s, 0);
    if let Ok((_, after)) = skip_comments(s, next_line(s, 0)) {
        lemma_skip_comments_bounds(s, next_line(s, 0));
        lemma_line_end(s, after);
    }
}

/// One pixel as a line of the file: `r g b` and a newline.
pub open spec fn pixel_line(p: [u8; 3]) -> Seq<u8> {
    decimal(p@[0] as nat) + seq![0x20u8] + decimal(p@[1] as nat) + seq![0x20u8] + decimal(
        p@[2] as nat,
    ) + seq![0x0Au8]
}

/// The pixel lines of an image, one line per pixel, in order.
pub open spec fn pixel_lines(ps: Seq<[u8; 3]>) -> Seq<u8>
    decreases ps.len(),
{
    if ps.len() == 0 {
        seq![]
    } else {
        pixel_line(ps[0]) + pixel_lines(ps.drop_first())
    }
}

/// The header that the writer puts out: `P3`, then `width height`, then `255`,
/// each on a line of its own.
pub open spec fn ppm_header_text(w: nat, h: nat) -> Seq<u8> {
    seq![0x50u8, 0x33u8, 0x0Au8] + decimal(w) + seq![0x20u8] + decimal(h) + seq![0x0Au8] + seq![
        0x32u8,
        0x35u8,
        0x35u8,
        0x0Au8,
    ]
}

/// The bytes of the PPM file that the writer puts out for an image.
pub open spec fn ppm_text(w: nat, h: nat, ps: Seq<[u8; 3]>) -> Seq<u8> {
    ppm_header_text(w, h) + pixel_lines(ps)
}

proof fn lemma_pixel_lines_push(ps: Seq<[u8; 3]>, p: [u8; 3])
    ensures
        pixel_lines(ps.push(p)) == pixel_lines(ps) + pixel_line(p),
    decreases ps.len(),
{
    if ps.len() == 0 {
        assert(ps.push(p).drop_first() =~= Seq::<[u8; 3]>::empty());
        assert(ps.push(p)[0] == p);
        assert(pixel_lines(Seq::<[u8; 3]>::empty()) == Seq::<u8>::empty());
        assert(pixel_lines(ps.push(p)) =~= pixel_line(p));
    } else {
        lemma_pixel_lines_push(ps.drop_first(), p);
        assert(ps.push(p).drop_first() =~= ps.drop_first().push(p));
        assert(pixel_lines(ps.push(p)) =~= pixel_lines(ps) + pixel_line(p));
    }
}

/// Writes an image as a plain PPM (`P3`) file, appending its bytes to `out`:
/// the header `P3`, `width height` and `255`, each on a line of its own, then one
/// line `r g b` per pixel, in order.
pub fn write_ppm(out: &mut Vec<u8>, width: usize, height: usize, pixels: &[[u8; 3]])
    ensures
        final(out)@ == old(out)@ + ppm_text(width as nat, height as nat, pixels@),
{
    let ghost start = out@;
    out.push(0x50);
    out.push(0x33);
    out.push(0x0A);
    push_decimal(out, width as u64);
    out.push(0x20);
    push_decimal(out, height as u64);
    out.push(0x0A);
    out.push(0x32);
    out.push(0x35);
    out.push(0x35);
    out.push(0x0A);
    assert(out@ =~= start + ppm_header_text(width as nat, height as nat));
    let mut i: usize = 0;
    assert(pixels@.take(0) =~= Seq::<[u8; 3]>::empty());
    while i < pixels.len()
        invariant
            i <= pixels@.len(),
            out@ == start + ppm_header_text(width as nat, height as nat) + pixel_lines(
                pixels@.take(i as int),
            ),
        decreases pixels@.len() - i,
    {
        let p = pixels[i];
        let ghost before = out@;
        push_decimal(out, p[0] as u64);
        out.push(0x20);
        push_decimal(out, p[1] as u64);
        out.push(0x20);
        push_decimal(out, p[2] as u64);
        out.push(0x0A);
        assert(out@ =~= before + pixel_line(p));
        proof {
            lemma_pixel_lines_push(pixels@.take(i as int), p);
            assert(pixels@.take(i as int).push(p) =~= pixels@.take(i + 1));
        }
        i = i + 1;
    }
    assert(pixels@.take(i as int) =~= pixels@);
}

} // verus!

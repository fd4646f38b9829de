//! Reading a byte buffer line by line, each line decoded as UTF-8 text.
use vstd::prelude::*;
use vstd::utf8::*;

verus! {

/// The Unicode scalar values of UTF-8 text.
pub open spec fn scalars(bytes: Seq<u8>) -> Seq<u32> {
    decode_utf8(bytes).map_values(|c: char| c as u32)
}

/// A line as text: its scalar values when it is valid UTF-8, nothing otherwise
/// (reading such a line is an error).
pub open spec fn line_text(bytes: Seq<u8>) -> Option<Seq<u32>> {
    if valid_utf8(bytes) {
        Some(scalars(bytes))
    } else {
        None
    }
}

/// Where the line that starts at `pos` ends: at the next `\n`, or at the end of
/// the buffer.
pub open spec fn line_end(s: Seq<u8>, pos: int) -> int
    decreases s.len() - pos,
{
    if pos >= s.len() {
        s.len() as int
    } else if s[pos] == 0x0A {
        pos
    } else {
        line_end(s, pos + 1)
    }
}

/// The line that starts at `pos`, without its `\n`; empty at the end of the buffer.
pub open spec fn line_at(s: Seq<u8>, pos: int) -> Seq<u8> {
    s.subrange(pos, line_end(s, pos))
}

/// Where the line after the one at `pos` starts.
pub open spec fn next_line(s: Seq<u8>, pos: int) -> int {
    if line_end(s, pos) < s.len() {
        line_end(s, pos) + 1
    } else {
        s.len() as int
    }
}

pub proof fn lemma_line_end(s: Seq<u8>, pos: int)
    requires
        0 <= pos <= s.len(),
    ensures
        pos <= line_end(s, pos) <= s.len(),
        line_end(s, pos) < s.len() ==> s[line_end(s, pos)] == 0x0A,
        forall|k: int| pos <= k < line_end(s, pos) ==> s[k] != 0x0A,
        pos <= next_line(s, pos) <= s.len(),
        pos < s.len() ==> pos < next_line(s, pos),
    decreases s.len() - pos,
{
    if pos < s.len() && s[pos] != 0x0A {
        lemma_line_end(s, pos + 1);
    }
}

/// Finds where the line that starts at `pos` ends.
pub fn find_line_end(s: &[u8], pos: usize) -> (e: usize)
    requires
        pos <= s@.len(),
    ensures
        e == line_end(s@, pos as int),
        pos <= e <= s@.len(),
{
    proof {
        lemma_line_end(s@, pos as int);
    }
    let mut i = pos;
    while i < s.len() && s[i] != 0x0A
        invariant
            pos <= i <= s@.len(),
            line_end(s@, pos as int) == line_end(s@, i as int),
        decreases s@.len() - i,
    {
        i = i + 1;
    }
    i
}

/// Where the line after the one ending at `e` starts.
pub fn after_line(s: &[u8], pos: usize, e: usize) -> (n: usize)
    requires
        pos <= s@.len(),
        e == line_end(s@, pos as int),
    ensures
        n == next_line(s@, pos as int),
{
    proof {
        lemma_line_end(s@, pos as int);
    }
    if e < s.len() {
        e + 1
    } else {
        s.len()
    }
}

proof fn lemma_map_concat(a: Seq<char>, b: Seq<char>)
    ensures
        (a + b).map_values(|c: char| c as u32) == a.map_values(|c: char| c as u32) + b.map_values(
            |c: char| c as u32,
        ),
{
    assert((a + b).map_values(|c: char| c as u32) =~= a.map_values(|c: char| c as u32)
        + b.map_values(|c: char| c as u32));
}

/// Decodes `bytes[start..end]` as UTF-8 into scalar values; nothing when it is
/// not valid UTF-8.
pub fn decode_text(bytes: &[u8], start: usize, end: usize) -> (r: Option<Vec<u32>>)
    requires
        start <= end <= bytes@.len(),
    ensures
        r is None ==> line_text(bytes@.subrange(start as int, end as int)) is None,
        r matches Some(v) ==> line_text(bytes@.subrange(start as int, end as int)) == Some(v@),
{
    let ghost whole = bytes@.subrange(start as int, end as int);
    let mut out: Vec<u32> = Vec::new();
    let mut i = start;
    assert(bytes@.subrange(start as int, end as int) =~= whole);
    assert(out@ + scalars(whole) =~= scalars(whole));
    while i < end
        invariant
            start <= i <= end <= bytes@.len(),
            whole == bytes@.subrange(start as int, end as int),
            valid_utf8(whole) == valid_utf8(bytes@.subrange(i as int, end as int)),
            valid_utf8(bytes@.subrange(i as int, end as int)) ==> scalars(whole) == out@ + scalars(
                bytes@.subrange(i as int, end as int),
            ),
        decreases end - i,
    {
        let ghost rest = bytes@.subrange(i as int, end as int);
        let b0 = bytes[i];
        let mut len: usize = 0;
        let mut cp: u32 = 0;
        if b0 <= 0x7f {
            len = 1;
            cp = (b0 & 0x7F) as u32;
        } else if 0xc0 <= b0 && b0 <= 0xdf {
            if end - i > 1 {
                let b1 = bytes[i + 1];
                if 0x80 <= b1 && b1 <= 0xbf {
                    len = 2;
                    cp = (((b0 & 0x1F) as u32) << 6) | ((b1 & 0x3f) as u32);
                    assert((((b0 & 0x1F) as u32) << 6) | ((b1 & 0x3f) as u32) <= 0x7FF)
                        by (bit_vector);
                }
            }
        } else if 0xe0 <= b0 && b0 <= 0xef {
            if end - i > 2 {
                let b1 = bytes[i + 1];
                let b2 = bytes[i + 2];
                if 0x80 <= b1 && b1 <= 0xbf && 0x80 <= b2 && b2 <= 0xbf {
                    len = 3;
                    cp = (((b0 & 0x0F) as u32) << 12) | (((b1 & 0x3f) as u32) << 6) | ((b2
                        & 0x3f) as u32);
                    assert((((b0 & 0x0F) as u32) << 12) | (((b1 & 0x3f) as u32) << 6) | ((b2
                        & 0x3f) as u32) <= 0xFFFF) by (bit_vector);
                }
            }
        } else if 0xf0 <= b0 && b0 <= 0xf7 {
            if end - i > 3 {
                let b1 = bytes[i + 1];
                let b2 = bytes[i + 2];
                let b3 = bytes[i + 3];
                if 0x80 <= b1 && b1 <= 0xbf && 0x80 <= b2 && b2 <= 0xbf && 0x80 <= b3 && b3
                    <= 0xbf {
                    len = 4;
                    cp = (((b0 & 0x07) as u32) << 18) | (((b1 & 0x3f) as u32) << 12) | (((b2
                        & 0x3f) as u32) << 6) | ((b3 & 0x3f) as u32);
                }
            }
        }
        assert(rest[0] == b0);
        if len == 0 {
            assert(!valid_first_scalar(rest));
            return None;
        }
        assert(valid_leading_and_continuation_bytes_first_codepoint(rest));
        assert(decode_first_codepoint(rest) == cp);
        assert(length_of_first_codepoint(rest) == len);
        let overlong = (len == 2 && cp < 0x80) || (len == 3 && cp < 0x800) || (len == 4 && (cp
            < 0x10000 || cp > 0x10ffff));
        let surrogate = 0xD800 <= cp && cp <= 0xDFFF;
        if overlong || surrogate {
            assert(!valid_first_scalar(rest));
            return None;
        }
        assert(valid_first_scalar(rest));
        let ghost popped = pop_first_scalar(rest);
        assert(popped =~= bytes@.subrange(i + len, end as int));
        proof {
            if valid_utf8(rest) {
                assert(decode_utf8(rest) == seq![cp as char] + decode_utf8(popped));
                lemma_map_concat(seq![cp as char], decode_utf8(popped));
                assert(seq![cp as char].map_values(|c: char| c as u32) =~= seq![cp]);
            }
        }
        let ghost before = out@;
        out.push(cp);
        proof {
            if valid_utf8(rest) {
                assert(scalars(rest) == seq![cp] + scalars(popped));
                assert(out@ + scalars(popped) =~= before + scalars(rest));
            }
        }
        i = i + len;
    }
    assert(bytes@.subrange(end as int, end as int) =~= Seq::<u8>::empty());
    assert(scalars(Seq::<u8>::empty()) =~= Seq::<u32>::empty());
    assert(out@ + Seq::<u32>::empty() =~= out@);
    Some(out)
}

} // verus!

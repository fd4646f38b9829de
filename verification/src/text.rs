//! Character-level text handling on Unicode scalar values: white space, trimming,
//! splitting into words, decimal numbers.
use vstd::prelude::*;

verus! {

/// White space in the sense of `char::is_whitespace`: the scalar values with the
/// Unicode `White_Space` property.
pub open spec fn is_space(c: u32) -> bool {
    ||| 0x09 <= c <= 0x0D
    ||| c == 0x20
    ||| c == 0x85
    ||| c == 0xA0
    ||| c == 0x1680
    ||| 0x2000 <= c <= 0x200A
    ||| c == 0x2028
    ||| c == 0x2029
    ||| c == 0x202F
    ||| c == 0x205F
    ||| c == 0x3000
}

pub fn space(c: u32) -> (r: bool)
    ensures
        r == is_space(c),
{
    (0x09 <= c && c <= 0x0D) || c == 0x20 || c == 0x85 || c == 0xA0 || c == 0x1680 || (0x2000
        <= c && c <= 0x200A) || c == 0x2028 || c == 0x2029 || c == 0x202F || c == 0x205F || c
        == 0x3000
}

/// The text with its leading white space removed.
pub open spec fn trim_start(s: Seq<u32>) -> Seq<u32>
    decreases s.len(),
{
    if s.len() > 0 && is_space(s[0]) {
        trim_start(s.drop_first())
    } else {
        s
    }
}

/// The text with its trailing white space removed.
pub open spec fn trim_end(s: Seq<u32>) -> Seq<u32>
    decreases s.len(),
{
    if s.len() > 0 && is_space(s.last()) {
        trim_end(s.drop_last())
    } else {
        s
    }
}

/// The text with white space removed at both ends, as `str::trim` does.
pub open spec fn trim(s: Seq<u32>) -> Seq<u32> {
    trim_end(trim_start(s))
}

/// Bounds of the trimmed text inside `s`.
pub fn trim_bounds(s: &[u32]) -> (r: (usize, usize))
    ensures
        r.0 <= r.1 <= s@.len(),
        s@.subrange(r.0 as int, r.1 as int) == trim(s@),
{
    let n = s.len();
    let mut i: usize = 0;
    assert(s@.subrange(0, n as int) =~= s@);
    while i < n && space(s[i])
        invariant
            i <= n,
            n == s@.len(),
            trim_start(s@) == trim_start(s@.subrange(i as int, n as int)),
        decreases n - i,
    {
        assert(s@.subrange(i as int, n as int).drop_first() =~= s@.subrange(i + 1, n as int));
        i = i + 1;
    }
    let mut j: usize = n;
    while j > i && space(s[j - 1])
        invariant
            i <= j <= n,
            n == s@.len(),
            trim_start(s@) == s@.subrange(i as int, n as int),
            trim(s@) == trim_end(s@.subrange(i as int, j as int)),
        decreases j - i,
    {
        assert(s@.subrange(i as int, j as int).drop_last() =~= s@.subrange(i as int, j - 1));
        j = j - 1;
    }
    (i, j)
}

/// Length of the run of non-space scalars at the start of `s`.
pub open spec fn word_len(s: Seq<u32>) -> nat
    decreases s.len(),
{
    if s.len() > 0 && !is_space(s[0]) {
        1 + word_len(s.drop_first())
    } else {
        0
    }
}

pub proof fn lemma_word_len_bound(s: Seq<u32>)
    ensures
        word_len(s) <= s.len(),
        s.len() > 0 && !is_space(s[0]) ==> word_len(s) >= 1,
    decreases s.len(),
{
    if s.len() > 0 && !is_space(s[0]) {
        lemma_word_len_bound(s.drop_first());
    }
}

/// The words of `s`: its maximal runs of non-space scalars, in order, as
/// `str::split_whitespace` yields them.
pub open spec fn words(s: Seq<u32>) -> Seq<Seq<u32>>
    decreases s.len(),
{
    if s.len() == 0 {
        seq![]
    } else if is_space(s[0]) {
        words(s.drop_first())
    } else {
        proof {
            lemma_word_len_bound(s);
        }
        seq![s.take(word_len(s) as int)] + words(s.skip(word_len(s) as int))
    }
}

pub open spec fn views_of(v: Seq<Vec<u32>>) -> Seq<Seq<u32>> {
    v.map_values(|w: Vec<u32>| w@)
}

proof fn lemma_word_len_step(s: Seq<u32>, i: int, k: int)
    requires
        0 <= i <= k < s.len(),
        !is_space(s[k]),
        word_len(s.skip(i)) == (k - i) + word_len(s.skip(k)),
    ensures
        word_len(s.skip(i)) == (k + 1 - i) + word_len(s.skip(k + 1)),
{
    assert(s.skip(k).drop_first() =~= s.skip(k + 1));
}

/// Splits `s` into its words.
pub fn split_words(s: &[u32]) -> (r: Vec<Vec<u32>>)
    ensures
        views_of(r@) == words(s@),
{
    let n = s.len();
    let mut out: Vec<Vec<u32>> = Vec::new();
    let mut i: usize = 0;
    assert(s@.skip(0) =~= s@);
    while i < n
        invariant
            i <= n,
            n == s@.len(),
            words(s@) == views_of(out@) + words(s@.skip(i as int)),
        decreases n - i,
    {
        if space(s[i]) {
            assert(s@.skip(i as int).drop_first() =~= s@.skip(i + 1));
            i = i + 1;
        } else {
            let start = i;
            let mut word: Vec<u32> = Vec::new();
            while i < n && !space(s[i])
                invariant
                    start <= i <= n,
                    n == s@.len(),
                    word@ == s@.subrange(start as int, i as int),
                    word_len(s@.skip(start as int)) == (i - start) + word_len(s@.skip(i as int)),
                decreases n - i,
            {
                proof {
                    lemma_word_len_step(s@, start as int, i as int);
                }
                word.push(s[i]);
                assert(word@ =~= s@.subrange(start as int, i + 1));
                i = i + 1;
            }
            let ghost rest = s@.skip(start as int);
            proof {
                assert(word_len(s@.skip(i as int)) == 0);
                assert(rest.take(word_len(rest) as int) =~= word@);
                assert(rest.skip(word_len(rest) as int) =~= s@.skip(i as int));
            }
            let ghost before = views_of(out@);
            out.push(word);
            assert(views_of(out@) =~= before.push(word@));
            assert(views_of(out@) + words(s@.skip(i as int)) =~= before + words(rest));
        }
    }
    assert(views_of(out@) + words(s@.skip(n as int)) =~= views_of(out@));
    out
}

/// ASCII decimal digit.
pub open spec fn is_digit(c: u32) -> bool {
    0x30 <= c <= 0x39
}

pub open spec fn all_digits(s: Seq<u32>) -> bool {
    forall|i: int| 0 <= i < s.len() ==> is_digit(#[trigger] s[i])
}

/// The number that a string of decimal digits denotes.
pub open spec fn digits_value(s: Seq<u32>) -> nat
    decreases s.len(),
{
    if s.len() == 0 {
        0
    } else {
        digits_value(s.drop_last()) * 10 + (s.last() - 0x30) as nat
    }
}

/// The digits of a token as the `from_str` of an unsigned integer type reads them:
/// a leading `+` is dropped.
pub open spec fn number_digits(tok: Seq<u32>) -> Seq<u32> {
    if tok.len() > 0 && tok[0] == 0x2B {
        tok.drop_first()
    } else {
        tok
    }
}

/// What `str::parse` gives for an unsigned integer type whose largest value is
/// `max`: the value when the token is an optional `+` and then one or more
/// decimal digits denoting at most `max`, and nothing otherwise.
pub open spec fn parse_unsigned(tok: Seq<u32>, max: nat) -> Option<nat> {
    let d = number_digits(tok);
    if d.len() > 0 && all_digits(d) && digits_value(d) <= max {
        Some(digits_value(d))
    } else {
        None
    }
}

proof fn lemma_digits_value_grows(s: Seq<u32>, k: int)
    requires
        0 <= k <= s.len(),
        all_digits(s),
    ensures
        digits_value(s.take(k)) <= digits_value(s),
    decreases s.len() - k,
{
    if k < s.len() {
        lemma_digits_value_grows(s, k + 1);
        assert(s.take(k + 1).drop_last() =~= s.take(k));
    } else {
        assert(s.take(k) =~= s);
    }
}

/// Parses a token as an unsigned integer no larger than `max`.
pub fn parse_bounded(tok: &[u32], max: u64) -> (r: Option<u64>)
    ensures
        r is None ==> parse_unsigned(tok@, max as nat) is None,
        r matches Some(v) ==> parse_unsigned(tok@, max as nat) == Some(v as nat),
{
    let n = tok.len();
    let start: usize = if n > 0 && tok[0] == 0x2B {
        1
    } else {
        0
    };
    let ghost d = number_digits(tok@);
    assert(d =~= tok@.subrange(start as int, n as int));
    if start == n {
        return None;
    }
    let mut value: u64 = 0;
    let mut i: usize = start;
    while i < n
        invariant
            start <= i <= n,
            n == tok@.len(),
            d == tok@.subrange(start as int, n as int),
            d == number_digits(tok@),
            all_digits(d.take(i - start)),
            value as nat == digits_value(d.take(i - start)),
            value <= max,
        decreases n - i,
    {
        let c = tok[i];
        if c < 0x30 || c > 0x39 {
            assert(d[i - start] == c);
            assert(!is_digit(d[i - start]));
            return None;
        }
        let digit: u64 = (c - 0x30) as u64;
        assert(d.take(i + 1 - start).drop_last() =~= d.take(i - start));
        assert(d.take(i + 1 - start).last() == c);
        assert(all_digits(d.take(i + 1 - start)));
        assert(digits_value(d.take(i + 1 - start)) == value * 10 + digit);
        if digit > max || value > (max - digit) / 10 {
            proof {
                if digit <= max {
                    assert(value * 10 + digit > max) by (nonlinear_arith)
                        requires
                            value > (max - digit) / 10,
                            digit <= max,
                    ;
                }
                if all_digits(d) {
                    lemma_digits_value_grows(d, i + 1 - start);
                }
            }
            return None;
        }
        assert(value * 10 + digit <= max) by (nonlinear_arith)
            requires
                value <= (max - digit) / 10,
                digit <= max,
        ;
        value = value * 10 + digit;
        i = i + 1;
    }
    assert(d.take(n - start) =~= d);
    Some(value)
}

/// Decimal notation of `n`, as `format!("{}", n)` writes it.
pub open spec fn decimal(n: nat) -> Seq<u8>
    decreases n,
{
    if n < 10 {
        seq![(n + 0x30) as u8]
    } else {
        decimal(n / 10) + seq![((n % 10) + 0x30) as u8]
    }
}

/// Appends the decimal notation of `n` to `out`.
pub fn push_decimal(out: &mut Vec<u8>, n: u64)
    ensures
        final(out)@ == old(out)@ + decimal(n as nat),
    decreases n,
{
    if n >= 10 {
        push_decimal(out, n / 10);
    }
    out.push(((n % 10) + 0x30) as u8);
    assert(n < 10 ==> n % 10 == n);
}

} // verus!

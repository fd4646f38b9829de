//! Laws of the text functions: which characters are white space, how text falls
//! into words, what trimming removes, and which tokens read as numbers.
use vstd::prelude::*;
use crate::text::{
    all_digits, decimal, digits_value, is_digit, is_space, lemma_word_len_bound, number_digits,
    parse_unsigned, trim, trim_end, trim_start, word_len, words,
};

verus! {

/// The scalar values of ASCII text, byte for byte.
pub open spec fn ascii(b: Seq<u8>) -> Seq<u32> {
    b.map_values(|x: u8| x as u32)
}

pub proof fn lemma_ascii_concat(a: Seq<u8>, b: Seq<u8>)
    ensures
        ascii(a + b) == ascii(a) + ascii(b),
{
    assert(ascii(a + b) =~= ascii(a) + ascii(b));
}

/// White space is exactly Unicode's `White_Space`: TAB, LF, VT, FF, CR, SPACE,
/// NEL, NO-BREAK SPACE, OGHAM SPACE MARK, the spaces from EN QUAD to HAIR SPACE,
/// LINE SEPARATOR, PARAGRAPH SEPARATOR, NARROW NO-BREAK SPACE, MEDIUM
/// MATHEMATICAL SPACE and IDEOGRAPHIC SPACE.
pub proof fn white_space_is_unicode_white_space(c: u32)
    ensures
        is_space(c) <==> (c == 0x09 || c == 0x0A || c == 0x0B || c == 0x0C || c == 0x0D || c
            == 0x20 || c == 0x85 || c == 0xA0 || c == 0x1680 || (0x2000 <= c && c <= 0x200A) || c
            == 0x2028 || c == 0x2029 || c == 0x202F || c == 0x205F || c == 0x3000),
{
}

proof fn lemma_word_len_append(a: Seq<u32>, x: Seq<u32>)
    ensures
        word_len(a) < a.len() ==> word_len(a + x) == word_len(a),
        word_len(a) == a.len() && (x.len() == 0 || is_space(x[0])) ==> word_len(a + x) == a.len(),
    decreases a.len(),
{
    lemma_word_len_bound(a);
    if a.len() > 0 {
        assert((a + x)[0] == a[0]);
        assert((a + x).drop_first() =~= a.drop_first() + x);
        lemma_word_len_append(a.drop_first(), x);
    } else {
        assert(a + x =~= x);
    }
}

/// A white space character separates words: the words of `a`, a white space
/// character, then `b`, are the words of `a` followed by the words of `b`.
pub proof fn words_split_at_white_space(a: Seq<u32>, c: u32, b: Seq<u32>)
    requires
        is_space(c),
    ensures
        words(a + seq![c] + b) == words(a) + words(b),
    decreases a.len(),
{
    let s = a + seq![c] + b;
    if a.len() == 0 {
        assert(s[0] == c);
        assert(s.drop_first() =~= b);
        assert(words(a) =~= Seq::<Seq<u32>>::empty());
        assert(words(a) + words(b) =~= words(b));
    } else if is_space(a[0]) {
        assert(s[0] == a[0]);
        assert(s.drop_first() =~= a.drop_first() + seq![c] + b);
        words_split_at_white_space(a.drop_first(), c, b);
    } else {
        assert(s[0] == a[0]);
        lemma_word_len_bound(a);
        lemma_word_len_append(a, seq![c] + b);
        assert(s =~= a + (seq![c] + b));
        let k = word_len(a) as int;
        if k < a.len() {
            assert(s.take(k) =~= a.take(k));
            assert(s.skip(k) =~= a.skip(k) + seq![c] + b);
            words_split_at_white_space(a.skip(k), c, b);
            assert(words(a) == seq![a.take(k)] + words(a.skip(k)));
            assert(words(s) =~= words(a) + words(b));
        } else {
            assert(s.take(k) =~= a);
            assert(s.skip(k) =~= seq![c] + b);
            let r = seq![c] + b;
            assert(r[0] == c);
            assert(r.drop_first() =~= b);
            assert(a.skip(k) =~= Seq::<u32>::empty());
            assert(a.take(k) =~= a);
            assert(words(Seq::<u32>::empty()) == Seq::<Seq<u32>>::empty());
            assert(words(a) == seq![a.take(k)] + words(a.skip(k)));
            assert(words(a) =~= seq![a]);
            assert((seq![c] + b)[0] == c);
            assert(word_len(s) == k);
            assert(words(s) == seq![s.take(k)] + words(s.skip(k)));
            assert(words(r) == words(r.drop_first()));
            assert(words(s) =~= words(a) + words(b));
        }
    }
}

proof fn lemma_word_len_full(w: Seq<u32>)
    requires
        forall|i: int| 0 <= i < w.len() ==> !is_space(#[trigger] w[i]),
    ensures
        word_len(w) == w.len(),
    decreases w.len(),
{
    if w.len() > 0 {
        assert(!is_space(w[0]));
        assert forall|i: int| 0 <= i < w.drop_first().len() implies !is_space(
            #[trigger] w.drop_first()[i],
        ) by {
            assert(w.drop_first()[i] == w[i + 1]);
        }
        lemma_word_len_full(w.drop_first());
    }
}

/// Text without white space is one word, and no text is no word.
pub proof fn word_without_white_space(w: Seq<u32>)
    requires
        forall|i: int| 0 <= i < w.len() ==> !is_space(#[trigger] w[i]),
    ensures
        w.len() > 0 ==> words(w) == seq![w],
        w.len() == 0 ==> words(w) == Seq::<Seq<u32>>::empty(),
{
    if w.len() > 0 {
        lemma_word_len_full(w);
        assert(w.take(w.len() as int) =~= w);
        assert(w.skip(w.len() as int) =~= Seq::<u32>::empty());
        assert(words(Seq::<u32>::empty()) == Seq::<Seq<u32>>::empty());
        assert(words(w) == seq![w.take(w.len() as int)] + words(w.skip(w.len() as int)));
        assert(words(w) =~= seq![w]);
    }
}

proof fn lemma_trim_start_append(t: Seq<u32>, u: Seq<u32>)
    ensures
        trim_start(t).len() > 0 ==> trim_start(t + u) == trim_start(t) + u,
        trim_start(t).len() == 0 ==> trim_start(t + u) == trim_start(u),
    decreases t.len(),
{
    if t.len() == 0 {
        assert(t + u =~= u);
    } else {
        assert((t + u)[0] == t[0]);
        assert((t + u).drop_first() =~= t.drop_first() + u);
        lemma_trim_start_append(t.drop_first(), u);
    }
}

/// Trimming removes white space at either end: a white space character before or
/// after the text changes nothing that is left.
pub proof fn trim_drops_white_space_at_ends(c: u32, t: Seq<u32>)
    requires
        is_space(c),
    ensures
        trim(seq![c] + t) == trim(t),
        trim(t + seq![c]) == trim(t),
{
    let s = seq![c] + t;
    assert(s[0] == c);
    assert(s.drop_first() =~= t);
    lemma_trim_start_append(t, seq![c]);
    if trim_start(t).len() > 0 {
        let x = trim_start(t) + seq![c];
        assert(x.last() == c);
        assert(x.drop_last() =~= trim_start(t));
    } else {
        let one = seq![c];
        assert(one[0] == c);
        assert(one.drop_first() =~= Seq::<u32>::empty());
        assert(trim_start(Seq::<u32>::empty()) == Seq::<u32>::empty());
        assert(trim_end(Seq::<u32>::empty()) == Seq::<u32>::empty());
    }
}

/// Trimming keeps text that has no white space at its ends.
pub proof fn trim_keeps_text_without_white_space_at_ends(t: Seq<u32>)
    requires
        t.len() == 0 || (!is_space(t[0]) && !is_space(t.last())),
    ensures
        trim(t) == t,
{
    if t.len() > 0 {
        assert(trim_start(t) == t);
        assert(trim_end(t) == t);
    }
}

/// The decimal notation of a number: digits only, and they denote the number.
pub proof fn lemma_decimal(n: nat)
    ensures
        decimal(n).len() > 0,
        forall|i: int| 0 <= i < decimal(n).len() ==> 0x30 <= #[trigger] decimal(n)[i] <= 0x39,
        digits_value(ascii(decimal(n))) == n,
    decreases n,
{
    if n >= 10 {
        lemma_decimal(n / 10);
        let d = seq![((n % 10) + 0x30) as u8];
        lemma_ascii_concat(decimal(n / 10), d);
        assert(ascii(decimal(n)).drop_last() =~= ascii(decimal(n / 10)));
        assert(ascii(decimal(n)).last() == ((n % 10) + 0x30));
        assert((n / 10) * 10 + n % 10 == n);
    } else {
        assert(ascii(decimal(n)).drop_last() =~= Seq::<u32>::empty());
        assert(ascii(decimal(n)).last() == n + 0x30);
        assert(digits_value(Seq::<u32>::empty()) == 0);
    }
    let t = ascii(decimal(n));
    assert(digits_value(t) == digits_value(t.drop_last()) * 10 + (t.last() - 0x30) as nat);
}

proof fn lemma_decimal_all_digits(n: nat)
    ensures
        all_digits(ascii(decimal(n))),
        ascii(decimal(n)).len() > 0,
        ascii(decimal(n))[0] != 0x2B,
{
    lemma_decimal(n);
    let t = ascii(decimal(n));
    assert forall|i: int| 0 <= i < t.len() implies is_digit(#[trigger] t[i]) by {
        assert(t[i] == decimal(n)[i] as u32);
    }
    assert(t[0] == decimal(n)[0] as u32);
}

/// The decimal notation of a number reads as that number, with or without a
/// leading `+`, when the number fits; otherwise it does not read as a number.
pub proof fn decimal_reads_as_its_number(n: nat, max: nat)
    ensures
        parse_unsigned(ascii(decimal(n)), max) == (if n <= max {
            Some(n)
        } else {
            None::<nat>
        }),
        parse_unsigned(seq![0x2Bu32] + ascii(decimal(n)), max) == (if n <= max {
            Some(n)
        } else {
            None::<nat>
        }),
{
    lemma_decimal(n);
    lemma_decimal_all_digits(n);
    let t = ascii(decimal(n));
    assert(number_digits(t) == t);
    let p = seq![0x2Bu32] + t;
    assert(p[0] == 0x2B);
    assert(p.drop_first() =~= t);
}

proof fn lemma_leading_zero_value(t: Seq<u32>)
    ensures
        digits_value(seq![0x30u32] + t) == digits_value(t),
    decreases t.len(),
{
    let s = seq![0x30u32] + t;
    if t.len() == 0 {
        assert(s.drop_last() =~= Seq::<u32>::empty());
        assert(s.last() == 0x30);
        assert(digits_value(Seq::<u32>::empty()) == 0);
        assert(digits_value(s) == digits_value(s.drop_last()) * 10 + (s.last() - 0x30) as nat);
    } else {
        assert(s.drop_last() =~= seq![0x30u32] + t.drop_last());
        assert(s.last() == t.last());
        lemma_leading_zero_value(t.drop_last());
        assert(digits_value(s) == digits_value(s.drop_last()) * 10 + (s.last() - 0x30) as nat);
        assert(digits_value(t) == digits_value(t.drop_last()) * 10 + (t.last() - 0x30) as nat);
    }
}

/// A leading zero does not change what a token reads as.
pub proof fn leading_zero_is_ignored(t: Seq<u32>, max: nat)
    requires
        t.len() > 0,
        t[0] != 0x2B,
    ensures
        parse_unsigned(seq![0x30u32] + t, max) == parse_unsigned(t, max),
{
    let s = seq![0x30u32] + t;
    assert(s[0] == 0x30);
    assert(number_digits(s) == s);
    assert(number_digits(t) == t);
    lemma_leading_zero_value(t);
    if all_digits(t) {
        assert forall|i: int| 0 <= i < s.len() implies is_digit(#[trigger] s[i]) by {
            if i > 0 {
                assert(s[i] == t[i - 1]);
            }
        }
    } else {
        let i = choose|i: int| 0 <= i < t.len() && !is_digit(#[trigger] t[i]);
        assert(s[i + 1] == t[i]);
    }
}

/// A token with a character that is not a decimal digit, other than one `+` in
/// front of at least one more character, does not read as a number; neither does
/// the empty token.
pub proof fn non_digit_is_refused(a: Seq<u32>, c: u32, b: Seq<u32>, max: nat)
    requires
        !(0x30 <= c && c <= 0x39),
        !(a.len() == 0 && c == 0x2B && b.len() > 0),
    ensures
        parse_unsigned(a + seq![c] + b, max) is None,
        parse_unsigned(Seq::<u32>::empty(), max) is None,
{
    let s = a + seq![c] + b;
    assert(s[a.len() as int] == c);
    let d = number_digits(s);
    if s[0] == 0x2B {
        if a.len() == 0 {
            assert(b.len() == 0);
            assert(d.len() == 0);
        } else {
            assert(d[a.len() - 1] == c);
            assert(!is_digit(d[a.len() - 1]));
        }
    } else {
        assert(!is_digit(d[a.len() as int]));
    }
}

} // verus!

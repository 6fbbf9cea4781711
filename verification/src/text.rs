//! Line splitting, UTF-8 decoding, whitespace tokenization and unsigned-integer
//! parsing, as used by the text header of PLY files.

use vstd::prelude::*;
use vstd::utf8::{valid_utf8, decode_utf8};
use vstd::std_specs::iter::IteratorSpec;

verus! {

broadcast use vstd::string::axiom_spec_iter, vstd::string::next_postcondition;

/// Length of the first line of `s`, its terminating `'\n'` included; the whole of
/// `s` when it holds no `'\n'`.
pub open spec fn line_len(s: Seq<u8>) -> nat
    decreases s.len(),
{
    if s.len() == 0 {
        0
    } else if s[0] == 10u8 {
        1
    } else {
        1 + line_len(s.drop_first())
    }
}

/// The first line of `s`.
pub open spec fn first_line(s: Seq<u8>) -> Seq<u8> {
    s.take(line_len(s) as int)
}

/// What follows the first line of `s`.
pub open spec fn after_line(s: Seq<u8>) -> Seq<u8> {
    s.skip(line_len(s) as int)
}

/// A line is never longer than what it is read from, and is empty only at the end.
pub proof fn lemma_line_len(s: Seq<u8>)
    ensures
        line_len(s) <= s.len(),
        s.len() > 0 ==> line_len(s) >= 1,
    decreases s.len(),
{
    if s.len() > 0 && s[0] != 10u8 {
        lemma_line_len(s.drop_first());
    }
}

/// A line followed by more text is read back unchanged: if `l` ends with its only
/// `'\n'`, the first line of `l + r` is `l` and what follows it is `r`.
pub proof fn lemma_line_prefix(l: Seq<u8>, r: Seq<u8>)
    requires
        l.len() >= 1,
        l[l.len() - 1] == 10u8,
        forall|i: int| 0 <= i < l.len() - 1 ==> l[i] != 10u8,
    ensures
        line_len(l + r) == l.len(),
        first_line(l + r) == l,
        after_line(l + r) == r,
    decreases l.len(),
{
    if l.len() > 1 {
        lemma_line_prefix(l.drop_first(), r);
        assert((l + r).drop_first() =~= l.drop_first() + r);
    }
    assert((l + r).take(l.len() as int) =~= l);
    assert((l + r).skip(l.len() as int) =~= r);
}

/// Returns the end of the line that starts at `pos`: one past its `'\n'`, or the end
/// of `bytes`.
pub fn line_end(bytes: &[u8], pos: usize) -> (end: usize)
    requires
        pos <= bytes@.len(),
    ensures
        end == pos + line_len(bytes@.skip(pos as int)),
        end <= bytes@.len(),
{
    let mut i = pos;
    while i < bytes.len() && bytes[i] != 10u8
        invariant
            pos <= i <= bytes@.len(),
            forall|k: int| pos <= k < i ==> bytes@[k] != 10u8,
        decreases bytes@.len() - i,
    {
        i = i + 1;
    }
    let end = if i < bytes.len() {
        i + 1
    } else {
        i
    };
    proof {
        lemma_line_len_of_scan(bytes@.skip(pos as int), (i - pos) as nat);
    }
    end
}

proof fn lemma_line_len_of_scan(s: Seq<u8>, m: nat)
    requires
        m <= s.len(),
        forall|k: int| 0 <= k < m ==> s[k] != 10u8,
        m < s.len() ==> s[m as int] == 10u8,
    ensures
        line_len(s) == if m < s.len() {
            m + 1
        } else {
            m
        },
    decreases m,
{
    if m > 0 {
        lemma_line_len_of_scan(s.drop_first(), (m - 1) as nat);
    }
}

/// The characters of a line: its UTF-8 decoding, or nothing when it is not valid UTF-8.
pub open spec fn line_chars(l: Seq<u8>) -> Option<Seq<char>> {
    if valid_utf8(l) {
        Some(decode_utf8(l))
    } else {
        None
    }
}

/// Decodes `bytes` as UTF-8 with `std::str::from_utf8`. The contract states what
/// the standard library documents: it succeeds exactly on well-formed UTF-8, and the
/// string it hands back has the characters that the bytes encode.
#[verifier::external_body]
fn str_from_utf8(bytes: &[u8]) -> (res: Option<&str>)
    ensures
        res is Some <==> valid_utf8(bytes@),
        res matches Some(s) ==> s@ == decode_utf8(bytes@),
{
    std::str::from_utf8(bytes).ok()
}

/// The characters of `s`, in order.
fn str_chars(s: &str) -> (v: Vec<char>)
    ensures
        v@ == s@,
{
    let mut it = s.chars();
    let mut v: Vec<char> = Vec::new();
    loop
        invariant
            v@ + it.remaining() == s@,
            it.decrease() is Some,
        decreases it.decrease()->0,
    {
        let ghost before = it.remaining();
        match it.next() {
            Some(c) => {
                v.push(c);
                assert(v@ + it.remaining() =~= s@);
            },
            None => {
                assert(v@ =~= s@);
                return v;
            },
        }
    }
}

/// Decodes a line: its characters when it is valid UTF-8, `None` otherwise.
pub fn decode_line(line: &[u8]) -> (res: Option<Vec<char>>)
    ensures
        res.is_some() == line_chars(line@).is_some(),
        res matches Some(v) ==> line_chars(line@) == Some(v@),
{
    match str_from_utf8(line) {
        Some(s) => Some(str_chars(s)),
        None => None,
    }
}

/// The Unicode `White_Space` property, which `char::is_whitespace` and
/// `str::split_whitespace` test.
pub open spec fn is_whitespace(c: char) -> bool {
    let v = c as u32;
    ||| 0x09 <= v <= 0x0d
    ||| v == 0x20
    ||| v == 0x85
    ||| v == 0xa0
    ||| v == 0x1680
    ||| 0x2000 <= v <= 0x200a
    ||| v == 0x2028
    ||| v == 0x2029
    ||| v == 0x202f
    ||| v == 0x205f
    ||| v == 0x3000
}

/// The code points that the Unicode Character Database (PropList.txt) gives the
/// `White_Space` property, one by one.
pub open spec fn white_space_code_points() -> Seq<u32> {
    seq![
        0x09u32, 0x0a, 0x0b, 0x0c, 0x0d, 0x20, 0x85, 0xa0, 0x1680, 0x2000, 0x2001, 0x2002, 0x2003,
        0x2004, 0x2005, 0x2006, 0x2007, 0x2008, 0x2009, 0x200a, 0x2028, 0x2029, 0x202f, 0x205f,
        0x3000,
    ]
}

/// A character is whitespace exactly when it is one of the code points with the
/// Unicode `White_Space` property: every other character, letters outside ASCII
/// included, belongs to a token.
pub proof fn lemma_whitespace_is_unicode_white_space(c: char)
    ensures
        is_whitespace(c) <==> white_space_code_points().contains(c as u32),
{
    let t = white_space_code_points();
    let v = c as u32;
    assert(t.len() == 25);
    if is_whitespace(c) {
        let k: int = if v <= 0x0d {
            v - 0x09
        } else if v == 0x20 {
            5
        } else if v == 0x85 {
            6
        } else if v == 0xa0 {
            7
        } else if v == 0x1680 {
            8
        } else if v <= 0x200a {
            9 + (v - 0x2000)
        } else if v == 0x2028 {
            20
        } else if v == 0x2029 {
            21
        } else if v == 0x202f {
            22
        } else if v == 0x205f {
            23
        } else {
            24
        };
        assert(t[k] == v);
    }
    if t.contains(v) {
        let k = choose|k: int| 0 <= k < t.len() && t[k] == v;
        assert(0x09 <= t[k] <= 0x0d || t[k] == 0x20 || t[k] == 0x85 || t[k] == 0xa0 || t[k] == 0x1680
            || 0x2000 <= t[k] <= 0x200a || t[k] == 0x2028 || t[k] == 0x2029 || t[k] == 0x202f || t[k]
            == 0x205f || t[k] == 0x3000);
    }
}

/// Whether `c` is a whitespace character.
pub fn char_is_whitespace(c: char) -> (b: bool)
    ensures
        b == is_whitespace(c),
{
    let v = c as u32;
    (0x09 <= v && v <= 0x0d) || v == 0x20 || v == 0x85 || v == 0xa0 || v == 0x1680 || (0x2000 <= v
        && v <= 0x200a) || v == 0x2028 || v == 0x2029 || v == 0x202f || v == 0x205f || v == 0x3000
}

/// Number of leading characters of `s` up to its first whitespace character.
pub open spec fn token_len(s: Seq<char>) -> nat
    decreases s.len(),
{
    if s.len() == 0 || is_whitespace(s[0]) {
        0
    } else {
        1 + token_len(s.drop_first())
    }
}

/// A token is never longer than what it is read from, and is not empty when the
/// text starts with a non-whitespace character.
pub proof fn lemma_token_len(s: Seq<char>)
    ensures
        token_len(s) <= s.len(),
        s.len() > 0 && !is_whitespace(s[0]) ==> token_len(s) >= 1,
    decreases s.len(),
{
    if s.len() > 0 && !is_whitespace(s[0]) {
        lemma_token_len(s.drop_first());
    }
}

/// The maximal runs of non-whitespace characters of `s`, in order: what
/// `str::split_whitespace` yields.
pub open spec fn split_whitespace(s: Seq<char>) -> Seq<Seq<char>>
    decreases s.len(),
{
    if s.len() == 0 {
        seq![]
    } else if is_whitespace(s[0]) {
        split_whitespace(s.drop_first())
    } else {
        proof {
            lemma_token_len(s);
        }
        seq![s.take(token_len(s) as int)] + split_whitespace(s.skip(token_len(s) as int))
    }
}

/// When the first `m` characters of `s` are not whitespace and the next one is (or
/// `s` ends there), the first token of `s` has length `m`.
pub proof fn lemma_token_len_of_scan(s: Seq<char>, m: nat)
    requires
        m <= s.len(),
        forall|k: int| 0 <= k < m ==> !is_whitespace(#[trigger] s[k]),
        m < s.len() ==> is_whitespace(s[m as int]),
    ensures
        token_len(s) == m,
    decreases m,
{
    if m > 0 {
        assert forall|k: int| 0 <= k < m - 1 implies !is_whitespace(#[trigger] s.drop_first()[k]) by {
            assert(s.drop_first()[k] == s[k + 1]);
        }
        lemma_token_len_of_scan(s.drop_first(), (m - 1) as nat);
    }
}

/// The first `token_len(s)` characters of `s` are not whitespace.
proof fn lemma_token_chars(s: Seq<char>, k: int)
    requires
        0 <= k < token_len(s),
    ensures
        !is_whitespace(s[k]),
    decreases k,
{
    lemma_token_len(s);
    assert(s.len() > 0 && !is_whitespace(s[0]));
    if k > 0 {
        lemma_token_chars(s.drop_first(), k - 1);
        assert(s.drop_first()[k - 1] == s[k]);
    }
}

/// A text without whitespace is kept whole by the filter that drops whitespace.
proof fn lemma_filter_keeps_plain(t: Seq<char>)
    requires
        forall|k: int| 0 <= k < t.len() ==> !is_whitespace(#[trigger] t[k]),
    ensures
        t.filter(|c: char| !is_whitespace(c)) == t,
    decreases t.len(),
{
    if t.len() > 0 {
        let d = t.drop_first();
        assert forall|k: int| 0 <= k < d.len() implies !is_whitespace(#[trigger] d[k]) by {
            assert(d[k] == t[k + 1]);
        }
        lemma_filter_keeps_plain(d);
        assert(t =~= seq![t[0]] + d);
        d.lemma_filter_prepend(t[0], |c: char| !is_whitespace(c));
        assert(!is_whitespace(t[0]));
    }
}

/// Splitting at whitespace loses and adds nothing but whitespace: every token is a
/// non-empty run of non-whitespace characters, and the tokens, put back together,
/// are the characters of `s` that are not whitespace, in order.
pub proof fn lemma_split_whitespace_keeps_text(s: Seq<char>)
    ensures
        split_whitespace(s).flatten() == s.filter(|c: char| !is_whitespace(c)),
        forall|i: int, k: int|
            0 <= i < split_whitespace(s).len() && 0 <= k < split_whitespace(s)[i].len() ==> !is_whitespace(
                #[trigger] split_whitespace(s)[i][k],
            ),
        forall|i: int| 0 <= i < split_whitespace(s).len() ==> #[trigger] split_whitespace(s)[i].len() > 0,
    decreases s.len(),
{
    let p = |c: char| !is_whitespace(c);
    if s.len() == 0 {
        assert(s.filter(p) =~= Seq::<char>::empty()) by {
            reveal(Seq::filter);
        }
    } else if is_whitespace(s[0]) {
        let d = s.drop_first();
        lemma_split_whitespace_keeps_text(d);
        assert(s =~= seq![s[0]] + d);
        d.lemma_filter_prepend(s[0], p);
        assert(seq![s[0]].filter(p) =~= Seq::<char>::empty()) by {
            Seq::<char>::empty().lemma_filter_prepend(s[0], p);
            assert(seq![s[0]] + Seq::<char>::empty() =~= seq![s[0]]);
            assert(Seq::<char>::empty().filter(p) =~= Seq::<char>::empty()) by {
                reveal(Seq::filter);
            }
        }
        assert(s.filter(p) =~= d.filter(p));
    } else {
        lemma_token_len(s);
        let n = token_len(s) as int;
        let t = s.take(n);
        let r = s.skip(n);
        lemma_split_whitespace_keeps_text(r);
        assert forall|k: int| 0 <= k < t.len() implies !is_whitespace(#[trigger] t[k]) by {
            lemma_token_chars(s, k);
        }
        lemma_filter_keeps_plain(t);
        assert(s =~= t + r);
        Seq::filter_distributes_over_add(t, r, p);
        let toks = split_whitespace(s);
        assert(toks == seq![t] + split_whitespace(r));
        assert(toks.drop_first() =~= split_whitespace(r));
        assert(toks.flatten() == t + split_whitespace(r).flatten());
        assert forall|i: int, k: int|
            0 <= i < toks.len() && 0 <= k < toks[i].len() implies !is_whitespace(#[trigger] toks[i][k]) by {
            if i > 0 {
                assert(toks[i] == split_whitespace(r)[i - 1]);
            }
        }
        assert forall|i: int| 0 <= i < toks.len() implies #[trigger] toks[i].len() > 0 by {
            if i > 0 {
                assert(toks[i] == split_whitespace(r)[i - 1]);
            }
        }
    }
}

/// Splits `s` into its whitespace-separated tokens.
pub fn split_whitespace_chars(s: &Vec<char>) -> (toks: Vec<Vec<char>>)
    ensures
        toks.deep_view() == split_whitespace(s@),
{
    let n = s.len();
    let mut toks: Vec<Vec<char>> = Vec::new();
    let mut i: usize = 0;
    assert(s@.skip(0) =~= s@);
    while i < n
        invariant
            n == s@.len(),
            i <= n,
            split_whitespace(s@) == toks.deep_view() + split_whitespace(s@.skip(i as int)),
        decreases n - i,
    {
        if char_is_whitespace(s[i]) {
            assert(s@.skip(i as int).drop_first() =~= s@.skip(i + 1));
            i = i + 1;
        } else {
            let start = i;
            let mut tok: Vec<char> = Vec::new();
            while i < n && !char_is_whitespace(s[i])
                invariant
                    n == s@.len(),
                    start <= i <= n,
                    tok@ =~= s@.subrange(start as int, i as int),
                    forall|k: int| start <= k < i ==> !is_whitespace(#[trigger] s@[k]),
                decreases n - i,
            {
                tok.push(s[i]);
                i = i + 1;
            }
            proof {
                let t = s@.skip(start as int);
                assert forall|k: int| 0 <= k < i - start implies !is_whitespace(#[trigger] t[k]) by {
                    assert(t[k] == s@[start + k]);
                }
                lemma_token_len_of_scan(t, (i - start) as nat);
                assert(t.take((i - start) as int) =~= tok@);
                assert(t.skip((i - start) as int) =~= s@.skip(i as int));
                assert(split_whitespace(t) == seq![tok@] + split_whitespace(s@.skip(i as int)));
            }
            let ghost prev = toks.deep_view();
            let ghost prev_vec = toks@;
            assert(tok.deep_view() =~= tok@);
            toks.push(tok);
            proof {
                assert forall|j: int| 0 <= j < toks@.len() implies #[trigger] toks.deep_view()[j]
                    == prev.push(s@.subrange(start as int, i as int))[j] by {
                    if j < prev_vec.len() {
                        assert(toks@[j] == prev_vec[j]);
                    }
                }
                assert(toks.deep_view() =~= prev.push(s@.subrange(start as int, i as int)));
                assert(toks.deep_view() + split_whitespace(s@.skip(i as int)) =~= prev + (seq![
                    s@.subrange(start as int, i as int),
                ] + split_whitespace(s@.skip(i as int))));
            }
        }
    }
    assert(s@.skip(n as int) =~= Seq::<char>::empty());
    assert(toks.deep_view() + Seq::<Seq<char>>::empty() =~= toks.deep_view());
    toks
}

/// Whether `c` is one of the decimal digits `'0'` to `'9'`.
pub open spec fn is_digit(c: char) -> bool {
    0x30 <= (c as u32) <= 0x39
}

/// The value of a string of decimal digits, most significant first (0 when empty).
pub open spec fn digits_value(d: Seq<char>) -> int
    decreases d.len(),
{
    if d.len() == 0 {
        0
    } else {
        digits_value(d.drop_last()) * 10 + ((d.last() as u32) - 0x30)
    }
}

/// The digits that `usize::from_str` reads: what follows one leading `'+'`, if any.
pub open spec fn unsigned_digits(t: Seq<char>) -> Seq<char> {
    if t.len() > 0 && t[0] == '+' {
        t.drop_first()
    } else {
        t
    }
}

/// What `usize::from_str` returns on `t`: the value of its digits, after at most one
/// leading `'+'`, when there is at least one digit, nothing else, and the value fits in
/// a `usize`; nothing otherwise.
pub open spec fn parse_usize(t: Seq<char>) -> Option<usize> {
    let d = unsigned_digits(t);
    if d.len() > 0 && (forall|i: int| 0 <= i < d.len() ==> #[trigger] is_digit(d[i])) && digits_value(d)
        <= usize::MAX {
        Some(digits_value(d) as usize)
    } else {
        None
    }
}

/// Appending digits never lowers the value of a string of digits.
proof fn lemma_digits_value_grows(d: Seq<char>, i: int)
    requires
        0 <= i <= d.len(),
        forall|k: int| 0 <= k < d.len() ==> #[trigger] is_digit(d[k]),
    ensures
        0 <= digits_value(d.take(i)) <= digits_value(d),
    decreases d.len() - i,
{
    if i < d.len() {
        lemma_digits_value_grows(d, i + 1);
        assert(d.take(i + 1).drop_last() =~= d.take(i));
        assert(is_digit(d[i]));
    } else {
        assert(d.take(i) =~= d);
        lemma_digits_value_nonneg(d);
    }
}

proof fn lemma_digits_value_nonneg(d: Seq<char>)
    requires
        forall|k: int| 0 <= k < d.len() ==> #[trigger] is_digit(d[k]),
    ensures
        digits_value(d) >= 0,
    decreases d.len(),
{
    if d.len() > 0 {
        assert(is_digit(d[d.len() - 1]));
        lemma_digits_value_nonneg(d.drop_last());
    }
}

/// Parses `t` as `usize::from_str` does.
pub fn parse_usize_chars(t: &Vec<char>) -> (res: Option<usize>)
    ensures
        res == parse_usize(t@),
{
    let n = t.len();
    let mut i: usize = 0;
    if n > 0 && t[0] == '+' {
        i = 1;
    }
    let start = i;
    let ghost d = unsigned_digits(t@);
    assert(d =~= t@.skip(start as int));
    if start == n {
        return None;
    }
    let mut acc: usize = 0;
    assert(d.take(0) =~= Seq::<char>::empty());
    while i < n
        invariant
            start <= i <= n,
            n == t@.len(),
            d == t@.skip(start as int),
            d == unsigned_digits(t@),
            start < n,
            forall|k: int| 0 <= k < i - start ==> #[trigger] is_digit(d[k]),
            acc == digits_value(d.take(i - start)),
        decreases n - i,
    {
        let c = t[i];
        assert(d[i - start] == c);
        let v = #[verifier::truncate] (c as u32);
        if v < 0x30 || v > 0x39 {
            assert(!is_digit(d[i - start]));
            return None;
        }
        let digit = (v - 0x30) as usize;
        assert(d.take(i - start + 1).drop_last() =~= d.take(i - start));
        assert(d.take(i - start + 1).last() == c);
        assert(digits_value(d.take(i - start + 1)) == acc * 10 + digit);
        match acc.checked_mul(10) {
            Some(m) => match m.checked_add(digit) {
                Some(a) => {
                    acc = a;
                },
                None => {
                    proof {
                        if forall|k: int| 0 <= k < d.len() ==> #[trigger] is_digit(d[k]) {
                            lemma_digits_value_grows(d, i - start + 1);
                        }
                    }
                    return None;
                },
            },
            None => {
                proof {
                    if forall|k: int| 0 <= k < d.len() ==> #[trigger] is_digit(d[k]) {
                        lemma_digits_value_grows(d, i - start + 1);
                        lemma_digits_value_nonneg(d.take(i - start));
                    }
                }
                return None;
            },
        }
        i = i + 1;
    }
    assert(d.take(n - start) =~= d);
    Some(acc)
}

} // verus!

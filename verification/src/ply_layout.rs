//! The layout that the PLY header reader accepts: a header written line by line in
//! that layout, followed by its vertex records, is read back with its format, its
//! vertex count and the offset of its records.

use vstd::prelude::*;
use vstd::utf8::{encode_utf8, is_ascii_chars};
use crate::ply::{
    PlyFormat, PlyError, PlyHeader, kw_format, kw_ascii, kw_binary_little_endian, kw_binary_big_endian,
    kw_element, kw_vertex, kw_property, kw_float, kw_comment, magic_line, end_header_line,
    spec_parse_ply_header, magic_rest, format_rest, skip_comments, element_rest, properties_rest,
    end_header_rest, format_of, line_tokens, NUM_PROPERTIES, RECORD_BYTES,
};
use crate::text::{
    parse_usize, digits_value, unsigned_digits, is_digit, is_whitespace, split_whitespace,
    lemma_token_len_of_scan, line_chars, first_line, after_line, lemma_line_prefix,
};

verus! {

/// A token that `split_whitespace` keeps whole: printable ASCII, no whitespace.
pub open spec fn is_plain_token(t: Seq<char>) -> bool {
    &&& t.len() > 0
    &&& forall|i: int| 0 <= i < t.len() ==> 0x21 <= #[trigger] (t[i] as u32) <= 0x7e
}

/// A plain token followed by whitespace (or nothing) is the first token.
pub proof fn lemma_split_token(t: Seq<char>, r: Seq<char>)
    requires
        is_plain_token(t),
        r.len() > 0 ==> is_whitespace(r[0]),
    ensures
        split_whitespace(t + r) == seq![t] + split_whitespace(r),
{
    let s = t + r;
    assert forall|k: int| 0 <= k < t.len() implies !is_whitespace(#[trigger] s[k]) by {
        assert(s[k] == t[k]);
        assert(0x21 <= (t[k] as u32) <= 0x7e);
    }
    lemma_token_len_of_scan(s, t.len());
    assert(s[0] == t[0]);
    assert(0x21 <= (t[0] as u32) <= 0x7e);
    assert(s.take(t.len() as int) =~= t);
    assert(s.skip(t.len() as int) =~= r);
}

/// Leading whitespace is skipped.
pub proof fn lemma_split_space(r: Seq<char>)
    requires
        r.len() > 0,
        is_whitespace(r[0]),
    ensures
        split_whitespace(r) == split_whitespace(r.drop_first()),
{
}

/// A line break alone holds no token.
pub proof fn lemma_split_newline()
    ensures
        split_whitespace(seq!['\n']) == Seq::<Seq<char>>::empty(),
{
    let nl = seq!['\n'];
    assert(nl.drop_first() =~= Seq::<char>::empty());
    assert(nl[0] == '\n');
    assert(('\n' as u32) == 10);
    assert(is_whitespace(nl[0]));
    assert(split_whitespace(nl) == split_whitespace(nl.drop_first()));
    assert(split_whitespace(Seq::<char>::empty()) =~= Seq::<Seq<char>>::empty());
}

/// An ASCII line: ASCII characters ending with its only line break.
pub open spec fn is_ascii_line(c: Seq<char>) -> bool {
    &&& is_ascii_chars(c)
    &&& c.len() >= 1
    &&& c[c.len() - 1] == '\n'
    &&& forall|i: int| 0 <= i < c.len() - 1 ==> c[i] != '\n'
}

/// The bytes of an ASCII line are read back as that line, and what follows them is
/// left for the next line.
pub proof fn lemma_ascii_line(c: Seq<char>, r: Seq<u8>)
    requires
        is_ascii_line(c),
    ensures
        first_line(encode_utf8(c) + r) == encode_utf8(c),
        after_line(encode_utf8(c) + r) == r,
        line_chars(encode_utf8(c)) == Some(c),
        encode_utf8(c).len() == c.len(),
{
    let l = encode_utf8(c);
    vstd::utf8::is_ascii_chars_encode_utf8(c);
    vstd::utf8::encode_utf8_valid_utf8(c);
    vstd::utf8::encode_utf8_decode_utf8(c);
    vstd::utf8::is_ascii_chars_nat_bound(c);
    assert(l[l.len() - 1] == 10u8) by {
        assert(c[c.len() - 1] as u8 == l[c.len() - 1]);
    }
    assert forall|i: int| 0 <= i < l.len() - 1 implies l[i] != 10u8 by {
        assert(c[i] as u8 == l[i]);
        assert((c[i] as nat) < 128);
        assert(c[i] != '\n');
    }
    lemma_line_prefix(l, r);
}


/// The keywords of the header are plain tokens.
pub proof fn lemma_keywords_plain()
    ensures
        is_plain_token(kw_format()),
        is_plain_token(kw_ascii()),
        is_plain_token(kw_binary_little_endian()),
        is_plain_token(kw_binary_big_endian()),
        is_plain_token(kw_element()),
        is_plain_token(kw_vertex()),
        is_plain_token(kw_property()),
        is_plain_token(kw_float()),
{
    assert forall|i: int| 0 <= i < kw_format().len() implies 0x21 <= #[trigger] (kw_format()[i] as u32) <= 0x7e by {
        if i == 0 {
            assert(kw_format()[0] == 'f');
        } else if i == 1 {
            assert(kw_format()[1] == 'o');
        } else if i == 2 {
            assert(kw_format()[2] == 'r');
        } else if i == 3 {
            assert(kw_format()[3] == 'm');
        } else if i == 4 {
            assert(kw_format()[4] == 'a');
        } else if i == 5 {
            assert(kw_format()[5] == 't');
        }
    }
    assert forall|i: int| 0 <= i < kw_ascii().len() implies 0x21 <= #[trigger] (kw_ascii()[i] as u32) <= 0x7e by {
        if i == 0 {
            assert(kw_ascii()[0] == 'a');
        } else if i == 1 {
            assert(kw_ascii()[1] == 's');
        } else if i == 2 {
            assert(kw_ascii()[2] == 'c');
        } else if i == 3 {
            assert(kw_ascii()[3] == 'i');
        } else if i == 4 {
            assert(kw_ascii()[4] == 'i');
        }
    }
    assert forall|i: int| 0 <= i < kw_binary_little_endian().len() implies 0x21 <= #[trigger] (kw_binary_little_endian()[i] as u32) <= 0x7e by {
        if i == 0 {
            assert(kw_binary_little_endian()[0] == 'b');
        } else if i == 1 {
            assert(kw_binary_little_endian()[1] == 'i');
        } else if i == 2 {
            assert(kw_binary_little_endian()[2] == 'n');
        } else if i == 3 {
            assert(kw_binary_little_endian()[3] == 'a');
        } else if i == 4 {
            assert(kw_binary_little_endian()[4] == 'r');
        } else if i == 5 {
            assert(kw_binary_little_endian()[5] == 'y');
        } else if i == 6 {
            assert(kw_binary_little_endian()[6] == '_');
        } else if i == 7 {
            assert(kw_binary_little_endian()[7] == 'l');
        } else if i == 8 {
            assert(kw_binary_little_endian()[8] == 'i');
        } else if i == 9 {
            assert(kw_binary_little_endian()[9] == 't');
        } else if i == 10 {
            assert(kw_binary_little_endian()[10] == 't');
        } else if i == 11 {
            assert(kw_binary_little_endian()[11] == 'l');
        } else if i == 12 {
            assert(kw_binary_little_endian()[12] == 'e');
        } else if i == 13 {
            assert(kw_binary_little_endian()[13] == '_');
        } else if i == 14 {
            assert(kw_binary_little_endian()[14] == 'e');
        } else if i == 15 {
            assert(kw_binary_little_endian()[15] == 'n');
        } else if i == 16 {
            assert(kw_binary_little_endian()[16] == 'd');
        } else if i == 17 {
            assert(kw_binary_little_endian()[17] == 'i');
        } else if i == 18 {
            assert(kw_binary_little_endian()[18] == 'a');
        } else if i == 19 {
            assert(kw_binary_little_endian()[19] == 'n');
        }
    }
    assert forall|i: int| 0 <= i < kw_binary_big_endian().len() implies 0x21 <= #[trigger] (kw_binary_big_endian()[i] as u32) <= 0x7e by {
        if i == 0 {
            assert(kw_binary_big_endian()[0] == 'b');
        } else if i == 1 {
            assert(kw_binary_big_endian()[1] == 'i');
        } else if i == 2 {
            assert(kw_binary_big_endian()[2] == 'n');
        } else if i == 3 {
            assert(kw_binary_big_endian()[3] == 'a');
        } else if i == 4 {
            assert(kw_binary_big_endian()[4] == 'r');
        } else if i == 5 {
            assert(kw_binary_big_endian()[5] == 'y');
        } else if i == 6 {
            assert(kw_binary_big_endian()[6] == '_');
        } else if i == 7 {
            assert(kw_binary_big_endian()[7] == 'b');
        } else if i == 8 {
            assert(kw_binary_big_endian()[8] == 'i');
        } else if i == 9 {
            assert(kw_binary_big_endian()[9] == 'g');
        } else if i == 10 {
            assert(kw_binary_big_endian()[10] == '_');
        } else if i == 11 {
            assert(kw_binary_big_endian()[11] == 'e');
        } else if i == 12 {
            assert(kw_binary_big_endian()[12] == 'n');
        } else if i == 13 {
            assert(kw_binary_big_endian()[13] == 'd');
        } else if i == 14 {
            assert(kw_binary_big_endian()[14] == 'i');
        } else if i == 15 {
            assert(kw_binary_big_endian()[15] == 'a');
        } else if i == 16 {
            assert(kw_binary_big_endian()[16] == 'n');
        }
    }
    assert forall|i: int| 0 <= i < kw_element().len() implies 0x21 <= #[trigger] (kw_element()[i] as u32) <= 0x7e by {
        if i == 0 {
            assert(kw_element()[0] == 'e');
        } else if i == 1 {
            assert(kw_element()[1] == 'l');
        } else if i == 2 {
            assert(kw_element()[2] == 'e');
        } else if i == 3 {
            assert(kw_element()[3] == 'm');
        } else if i == 4 {
            assert(kw_element()[4] == 'e');
        } else if i == 5 {
            assert(kw_element()[5] == 'n');
        } else if i == 6 {
            assert(kw_element()[6] == 't');
        }
    }
    assert forall|i: int| 0 <= i < kw_vertex().len() implies 0x21 <= #[trigger] (kw_vertex()[i] as u32) <= 0x7e by {
        if i == 0 {
            assert(kw_vertex()[0] == 'v');
        } else if i == 1 {
            assert(kw_vertex()[1] == 'e');
        } else if i == 2 {
            assert(kw_vertex()[2] == 'r');
        } else if i == 3 {
            assert(kw_vertex()[3] == 't');
        } else if i == 4 {
            assert(kw_vertex()[4] == 'e');
        } else if i == 5 {
            assert(kw_vertex()[5] == 'x');
        }
    }
    assert forall|i: int| 0 <= i < kw_property().len() implies 0x21 <= #[trigger] (kw_property()[i] as u32) <= 0x7e by {
        if i == 0 {
            assert(kw_property()[0] == 'p');
        } else if i == 1 {
            assert(kw_property()[1] == 'r');
        } else if i == 2 {
            assert(kw_property()[2] == 'o');
        } else if i == 3 {
            assert(kw_property()[3] == 'p');
        } else if i == 4 {
            assert(kw_property()[4] == 'e');
        } else if i == 5 {
            assert(kw_property()[5] == 'r');
        } else if i == 6 {
            assert(kw_property()[6] == 't');
        } else if i == 7 {
            assert(kw_property()[7] == 'y');
        }
    }
    assert forall|i: int| 0 <= i < kw_float().len() implies 0x21 <= #[trigger] (kw_float()[i] as u32) <= 0x7e by {
        if i == 0 {
            assert(kw_float()[0] == 'f');
        } else if i == 1 {
            assert(kw_float()[1] == 'l');
        } else if i == 2 {
            assert(kw_float()[2] == 'o');
        } else if i == 3 {
            assert(kw_float()[3] == 'a');
        } else if i == 4 {
            assert(kw_float()[4] == 't');
        }
    }
}

/// The tokens `toks` separated by single spaces and ended by a line break.
pub open spec fn token_line(toks: Seq<Seq<char>>) -> Seq<char>
    decreases toks.len(),
{
    if toks.len() == 0 {
        seq!['\n']
    } else if toks.len() == 1 {
        toks[0] + seq!['\n']
    } else {
        toks[0] + seq![' '] + token_line(toks.drop_first())
    }
}

/// A line of plain tokens is an ASCII line whose tokens are those tokens.
pub proof fn lemma_token_line(toks: Seq<Seq<char>>)
    requires
        forall|i: int| 0 <= i < toks.len() ==> is_plain_token(#[trigger] toks[i]),
    ensures
        is_ascii_line(token_line(toks)),
        split_whitespace(token_line(toks)) == toks,
    decreases toks.len(),
{
    assert((' ' as u32) == 0x20 && ('\n' as u32) == 10);
    if toks.len() == 0 {
        lemma_split_newline();
        assert(toks =~= Seq::<Seq<char>>::empty());
    } else {
        let t = toks[0];
        assert(is_plain_token(t));
        let rest = if toks.len() == 1 {
            seq!['\n']
        } else {
            seq![' '] + token_line(toks.drop_first())
        };
        assert(token_line(toks) == t + rest);
        if toks.len() == 1 {
            lemma_split_newline();
            lemma_split_token(t, rest);
            assert(toks =~= seq![t]);
        } else {
            let tail = toks.drop_first();
            assert forall|i: int| 0 <= i < tail.len() implies is_plain_token(#[trigger] tail[i]) by {
                assert(tail[i] == toks[i + 1]);
            }
            lemma_token_line(tail);
            lemma_split_token(t, rest);
            assert(rest.drop_first() =~= token_line(tail));
            lemma_split_space(rest);
            assert(seq![t] + tail =~= toks);
        }
        let line = t + rest;
        assert forall|i: int| 0 <= i < line.len() implies '\0' <= #[trigger] line[i] <= '\u{7f}' by {
            if i < t.len() {
                assert(line[i] == t[i]);
                assert(0x21 <= (t[i] as u32) <= 0x7e);
                vstd::utf8::char_u32_cast(t[i], t[i] as u32);
            } else if toks.len() > 1 && i > t.len() {
                assert(line[i] == token_line(toks.drop_first())[i - t.len() - 1]);
            }
        }
        assert forall|i: int| 0 <= i < line.len() - 1 implies line[i] != '\n' by {
            if i < t.len() {
                assert(line[i] == t[i]);
                assert(0x21 <= (t[i] as u32) <= 0x7e);
            } else if toks.len() > 1 && i > t.len() {
                assert(line[i] == token_line(toks.drop_first())[i - t.len() - 1]);
            }
        }
    }
}

/// The decimal digit `d`.
pub open spec fn digit_char(d: nat) -> char {
    (d + 0x30) as char
}

/// The decimal representation of `n`, most significant digit first, without
/// leading zeros.
pub open spec fn decimal(n: nat) -> Seq<char>
    decreases n,
{
    if n < 10 {
        seq![digit_char(n)]
    } else {
        decimal(n / 10).push(digit_char(n % 10))
    }
}

/// A decimal representation is a plain token of digits with the value it represents.
pub proof fn lemma_decimal(n: nat)
    ensures
        is_plain_token(decimal(n)),
        forall|i: int| 0 <= i < decimal(n).len() ==> is_digit(#[trigger] decimal(n)[i]),
        digits_value(decimal(n)) == n,
    decreases n,
{
    assert(digits_value(Seq::<char>::empty()) == 0);
    if n < 10 {
        assert(digit_char(n) as u32 == n + 0x30);
        assert(decimal(n).drop_last() =~= Seq::<char>::empty());
        assert(decimal(n).last() == digit_char(n));
        assert(digits_value(decimal(n)) == digits_value(decimal(n).drop_last()) * 10 + ((digit_char(n) as u32) - 0x30));
    } else {
        lemma_decimal(n / 10);
        let d = decimal(n / 10);
        let c = digit_char(n % 10);
        assert(c as u32 == n % 10 + 0x30);
        assert(d.push(c).drop_last() =~= d);
        assert(d.push(c).last() == c);
        assert(n == (n / 10) * 10 + n % 10);
        assert forall|i: int| 0 <= i < d.push(c).len() implies is_digit(#[trigger] d.push(c)[i]) by {
            if i < d.len() {
                assert(d.push(c)[i] == d[i]);
            }
        }
    }
}

/// A vertex count written in decimal is read back.
pub proof fn lemma_decimal_parses(n: usize)
    ensures
        parse_usize(decimal(n as nat)) == Some(n),
{
    lemma_decimal(n as nat);
    let d = decimal(n as nat);
    assert(is_digit(d[0]));
    assert(unsigned_digits(d) == d);
}


/// The name that the `format` line gives to `f`.
pub open spec fn format_name(f: PlyFormat) -> Seq<char> {
    match f {
        PlyFormat::Ascii => kw_ascii(),
        PlyFormat::BinaryLittleEndian => kw_binary_little_endian(),
        PlyFormat::BinaryBigEndian => kw_binary_big_endian(),
    }
}

/// The version token of the `format` line.
pub open spec fn kw_version() -> Seq<char> {
    seq!['1', '.', '0']
}

/// `format <name> 1.0`.
pub open spec fn format_line(f: PlyFormat) -> Seq<char> {
    token_line(seq![kw_format(), format_name(f), kw_version()])
}

/// `element vertex <n>`.
pub open spec fn element_line(n: nat) -> Seq<char> {
    token_line(seq![kw_element(), kw_vertex(), decimal(n)])
}

/// `property float <name>`.
pub open spec fn property_line(name: Seq<char>) -> Seq<char> {
    token_line(seq![kw_property(), kw_float(), name])
}

/// One `property float` line for each name, in order.
pub open spec fn property_lines(names: Seq<Seq<char>>) -> Seq<Seq<char>> {
    names.map_values(|name: Seq<char>| property_line(name))
}

/// The lines of a header for `n` vertices in format `f` with the given property names.
pub open spec fn header_lines(f: PlyFormat, n: nat, names: Seq<Seq<char>>) -> Seq<Seq<char>> {
    seq![magic_line(), format_line(f), element_line(n)] + property_lines(names) + seq![end_header_line()]
}

/// The UTF-8 bytes of `lines`, one after the other.
pub open spec fn encode_lines(lines: Seq<Seq<char>>) -> Seq<u8>
    decreases lines.len(),
{
    if lines.len() == 0 {
        seq![]
    } else {
        encode_utf8(lines[0]) + encode_lines(lines.drop_first())
    }
}

/// The bytes of two runs of lines are the bytes of each, one after the other.
pub proof fn lemma_encode_lines_concat(a: Seq<Seq<char>>, b: Seq<Seq<char>>)
    ensures
        encode_lines(a + b) == encode_lines(a) + encode_lines(b),
    decreases a.len(),
{
    if a.len() == 0 {
        assert(a + b =~= b);
        assert(encode_lines(a) + encode_lines(b) =~= encode_lines(b));
    } else {
        lemma_encode_lines_concat(a.drop_first(), b);
        assert((a + b).drop_first() =~= a.drop_first() + b);
        assert((a + b)[0] == a[0]);
        assert(encode_lines(a + b) =~= encode_lines(a) + encode_lines(b));
    }
}

/// The bytes of a single line.
proof fn lemma_encode_one_line(l: Seq<char>)
    ensures
        encode_lines(seq![l]) == encode_utf8(l),
{
    let ls = seq![l];
    assert(ls.drop_first() =~= Seq::<Seq<char>>::empty());
    assert(encode_lines(ls.drop_first()) =~= Seq::<u8>::empty());
    assert(encode_utf8(l) + Seq::<u8>::empty() =~= encode_utf8(l));
}

/// The two fixed lines of the header are ASCII lines.
pub proof fn lemma_fixed_lines_ascii()
    ensures
        is_ascii_line(magic_line()),
        is_ascii_line(end_header_line()),
{
    let m = magic_line();
    assert forall|i: int| 0 <= i < m.len() implies '\0' <= #[trigger] m[i] <= '\u{7f}' by {
        if i == 0 {
            assert(m[0] == 'p');
        } else if i == 1 {
            assert(m[1] == 'l');
        } else if i == 2 {
            assert(m[2] == 'y');
        } else {
            assert(m[3] == '\n');
        }
    }
    assert forall|i: int| 0 <= i < m.len() - 1 implies m[i] != '\n' by {
        if i == 0 {
            assert(m[0] == 'p');
        } else if i == 1 {
            assert(m[1] == 'l');
        } else {
            assert(m[2] == 'y');
        }
    }
    let e = end_header_line();
    assert forall|i: int| 0 <= i < e.len() implies '\0' <= #[trigger] e[i] <= '\u{7f}' && (i < e.len() - 1 ==> e[i] != '\n') by {
        if i == 0 {
            assert(e[0] == 'e');
        } else if i == 1 {
            assert(e[1] == 'n');
        } else if i == 2 {
            assert(e[2] == 'd');
        } else if i == 3 {
            assert(e[3] == '_');
        } else if i == 4 {
            assert(e[4] == 'h');
        } else if i == 5 {
            assert(e[5] == 'e');
        } else if i == 6 {
            assert(e[6] == 'a');
        } else if i == 7 {
            assert(e[7] == 'd');
        } else if i == 8 {
            assert(e[8] == 'e');
        } else if i == 9 {
            assert(e[9] == 'r');
        } else {
            assert(e[10] == '\n');
        }
    }
}

/// The version token is a plain token.
proof fn lemma_version_plain()
    ensures
        is_plain_token(kw_version()),
{
    let v = kw_version();
    assert forall|i: int| 0 <= i < v.len() implies 0x21 <= #[trigger] (v[i] as u32) <= 0x7e by {
        if i == 0 {
            assert(v[0] == '1');
        } else if i == 1 {
            assert(v[1] == '.');
        } else {
            assert(v[2] == '0');
        }
    }
}

/// A line of three plain tokens is read as those three tokens, and what follows it
/// is left for the next line.
proof fn lemma_three_token_line(a: Seq<char>, b: Seq<char>, c: Seq<char>, r: Seq<u8>)
    requires
        is_plain_token(a),
        is_plain_token(b),
        is_plain_token(c),
    ensures
        line_tokens(encode_utf8(token_line(seq![a, b, c])) + r) == Some(seq![a, b, c]),
        after_line(encode_utf8(token_line(seq![a, b, c])) + r) == r,
{
    let toks = seq![a, b, c];
    assert forall|i: int| 0 <= i < toks.len() implies is_plain_token(#[trigger] toks[i]) by {
        if i == 0 {
            assert(toks[0] == a);
        } else if i == 1 {
            assert(toks[1] == b);
        } else {
            assert(toks[2] == c);
        }
    }
    lemma_token_line(toks);
    lemma_ascii_line(token_line(toks), r);
}

/// The `property float` lines of `names`, followed by `r`, are all read, and `r` is
/// what is left.
proof fn lemma_properties_read(names: Seq<Seq<char>>, r: Seq<u8>)
    requires
        forall|i: int| 0 <= i < names.len() ==> is_plain_token(#[trigger] names[i]),
    ensures
        properties_rest(encode_lines(property_lines(names)) + r, names.len()) == Ok::<Seq<u8>, PlyError>(r),
    decreases names.len(),
{
    if names.len() == 0 {
        assert(property_lines(names) =~= Seq::<Seq<char>>::empty());
        assert(encode_lines(property_lines(names)) + r =~= r);
    } else {
        let tail = names.drop_first();
        assert forall|i: int| 0 <= i < tail.len() implies is_plain_token(#[trigger] tail[i]) by {
            assert(tail[i] == names[i + 1]);
        }
        lemma_properties_read(tail, r);
        let lines = property_lines(names);
        assert(lines.drop_first() =~= property_lines(tail));
        assert(lines[0] == property_line(names[0]));
        let rest = encode_lines(property_lines(tail)) + r;
        assert(encode_lines(lines) + r =~= encode_utf8(property_line(names[0])) + rest);
        lemma_keywords_plain();
        assert(is_plain_token(names[0]));
        lemma_three_token_line(kw_property(), kw_float(), names[0], rest);
    }
}

/// A header written in the layout above, followed by its vertex records, is read back:
/// its format, its vertex count, and its own length as the offset of the records.
pub proof fn lemma_header_layout_read_back(f: PlyFormat, n: usize, names: Seq<Seq<char>>, payload: Seq<u8>)
    requires
        names.len() == NUM_PROPERTIES,
        forall|i: int| 0 <= i < names.len() ==> is_plain_token(#[trigger] names[i]),
        payload.len() == RECORD_BYTES * n,
        encode_lines(header_lines(f, n as nat, names)).len() + payload.len() <= usize::MAX,
    ensures
        spec_parse_ply_header(encode_lines(header_lines(f, n as nat, names)) + payload) == Ok::<PlyHeader, PlyError>(
            PlyHeader {
                format: f,
                num_elem: n,
                payload_start: encode_lines(header_lines(f, n as nat, names)).len() as usize,
            },
        ),
{
    let header = encode_lines(header_lines(f, n as nat, names));
    let s = header + payload;
    let b0 = encode_utf8(magic_line());
    let b1 = encode_utf8(format_line(f));
    let b2 = encode_utf8(element_line(n as nat));
    let bp = encode_lines(property_lines(names));
    let b3 = encode_utf8(end_header_line());
    let first = seq![magic_line(), format_line(f), element_line(n as nat)];
    lemma_encode_lines_concat(first, property_lines(names));
    lemma_encode_lines_concat(first + property_lines(names), seq![end_header_line()]);
    assert(encode_lines(first) =~= b0 + b1 + b2) by {
        assert(first.drop_first().drop_first() =~= seq![element_line(n as nat)]);
        lemma_encode_one_line(element_line(n as nat));
        assert(encode_lines(first.drop_first()) =~= b1 + b2);
    }
    lemma_encode_one_line(end_header_line());
    let r4 = b3 + payload;
    let r3 = bp + r4;
    let r2 = b2 + r3;
    let r1 = b1 + r2;
    assert(s =~= b0 + r1);

    lemma_fixed_lines_ascii();
    lemma_keywords_plain();
    lemma_version_plain();
    lemma_decimal(n as nat);

    lemma_ascii_line(magic_line(), r1);
    assert(magic_rest(s) == Ok::<Seq<u8>, PlyError>(r1));

    assert(is_plain_token(format_name(f)));
    lemma_three_token_line(kw_format(), format_name(f), kw_version(), r2);
    assert(format_of(format_name(f)) == Some(f)) by {
        assert(kw_ascii().len() == 5);
        assert(kw_binary_little_endian().len() == 20);
        assert(kw_binary_big_endian().len() == 17);
    }
    assert(format_rest(r1) == Ok::<(PlyFormat, Seq<u8>), PlyError>((f, r2)));

    lemma_three_token_line(kw_element(), kw_vertex(), decimal(n as nat), r3);
    assert(kw_element() != kw_comment()) by {
        assert(kw_element()[1] != kw_comment()[1]);
    }
    assert(skip_comments(r2) == Ok::<Seq<u8>, PlyError>(r2));
    lemma_decimal_parses(n);
    assert(element_rest(r2) == Ok::<(usize, Seq<u8>), PlyError>((n, r3)));

    lemma_properties_read(names, r4);
    assert(properties_rest(r3, NUM_PROPERTIES as nat) == Ok::<Seq<u8>, PlyError>(r4));

    lemma_ascii_line(end_header_line(), payload);
    assert(end_header_rest(r4) == Ok::<Seq<u8>, PlyError>(payload));
}

} // verus!

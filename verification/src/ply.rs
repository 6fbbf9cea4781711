//! The header grammar of the binary PLY files that store 3D Gaussian splats, and
//! the little-endian words of their vertex records.

use vstd::prelude::*;
use vstd::utf8::{valid_utf8, decode_utf8};
use crate::text::{
    line_chars, first_line, after_line, split_whitespace, parse_usize, lemma_line_len, line_end,
    decode_line, split_whitespace_chars, parse_usize_chars, lemma_line_prefix,
};

verus! {

/// Encoding of the vertex records named by the `format` line.
#[derive(Clone, Copy, Debug, PartialEq, Eq, Structural)]
pub enum PlyFormat {
    Ascii,
    BinaryLittleEndian,
    BinaryBigEndian,
}

/// Why a file is not a Gaussian-splat PLY file.
#[derive(Clone, Copy, Debug, PartialEq, Eq, Structural)]
pub enum PlyError {
    /// A header line is not valid UTF-8.
    InvalidUtf8,
    /// The first line is not exactly `ply` and a newline.
    BadMagic,
    /// The second line does not name one of the three formats after `format`.
    BadFormat,
    /// The first line after the comments is not `element vertex <count>`.
    BadElement,
    /// One of the property lines is not `property float ...`.
    BadProperty,
    /// The header does not end with the line `end_header` and a newline.
    BadEndHeader,
    /// The bytes after the header are not exactly the vertex records.
    PayloadSize,
}

/// What the header of a Gaussian-splat PLY file holds.
#[derive(Clone, Copy, Debug, PartialEq, Eq, Structural)]
pub struct PlyHeader {
    pub format: PlyFormat,
    /// Number of vertex records (splats).
    pub num_elem: usize,
    /// Offset of the first vertex record: the byte after the `end_header` line.
    pub payload_start: usize,
}

/// Number of 32-bit float properties of each vertex record: position (3),
/// log-scale (3), base color (3), opacity (1), rotation quaternion (4) and the
/// view-dependent color coefficients (45).
pub const NUM_PROPERTIES: usize = 59;

/// Number of bytes of each vertex record.
pub const RECORD_BYTES: usize = 236;

pub open spec fn magic_line() -> Seq<char> {
    seq!['p', 'l', 'y', '\n']
}

pub open spec fn end_header_line() -> Seq<char> {
    seq!['e', 'n', 'd', '_', 'h', 'e', 'a', 'd', 'e', 'r', '\n']
}

pub open spec fn kw_format() -> Seq<char> {
    seq!['f', 'o', 'r', 'm', 'a', 't']
}

pub open spec fn kw_ascii() -> Seq<char> {
    seq!['a', 's', 'c', 'i', 'i']
}

pub open spec fn kw_binary_little_endian() -> Seq<char> {
    seq!['b', 'i', 'n', 'a', 'r', 'y', '_', 'l', 'i', 't', 't', 'l', 'e', '_', 'e', 'n', 'd', 'i', 'a', 'n']
}

pub open spec fn kw_binary_big_endian() -> Seq<char> {
    seq!['b', 'i', 'n', 'a', 'r', 'y', '_', 'b', 'i', 'g', '_', 'e', 'n', 'd', 'i', 'a', 'n']
}

pub open spec fn kw_comment() -> Seq<char> {
    seq!['c', 'o', 'm', 'm', 'e', 'n', 't']
}

pub open spec fn kw_element() -> Seq<char> {
    seq!['e', 'l', 'e', 'm', 'e', 'n', 't']
}

pub open spec fn kw_vertex() -> Seq<char> {
    seq!['v', 'e', 'r', 't', 'e', 'x']
}

pub open spec fn kw_property() -> Seq<char> {
    seq!['p', 'r', 'o', 'p', 'e', 'r', 't', 'y']
}

pub open spec fn kw_float() -> Seq<char> {
    seq!['f', 'l', 'o', 'a', 't']
}

/// The format that a token names.
pub open spec fn format_of(t: Seq<char>) -> Option<PlyFormat> {
    if t == kw_binary_little_endian() {
        Some(PlyFormat::BinaryLittleEndian)
    } else if t == kw_binary_big_endian() {
        Some(PlyFormat::BinaryBigEndian)
    } else if t == kw_ascii() {
        Some(PlyFormat::Ascii)
    } else {
        None
    }
}

/// The whitespace-separated tokens of the first line of `s`, when it is valid UTF-8.
pub open spec fn line_tokens(s: Seq<u8>) -> Option<Seq<Seq<char>>> {
    match line_chars(first_line(s)) {
        Some(c) => Some(split_whitespace(c)),
        None => None,
    }
}

/// At the end of the text the line is empty and holds no token.
pub proof fn lemma_no_tokens_at_end(s: Seq<u8>)
    requires
        s.len() == 0,
    ensures
        line_tokens(s) == Some(Seq::<Seq<char>>::empty()),
{
    assert(first_line(s) =~= Seq::<u8>::empty());
    assert(valid_utf8(first_line(s)));
    assert(decode_utf8(first_line(s)) =~= Seq::<char>::empty());
}

/// The first line must be `ply`; returns what follows it.
pub open spec fn magic_rest(s: Seq<u8>) -> Result<Seq<u8>, PlyError> {
    match line_chars(first_line(s)) {
        None => Err(PlyError::InvalidUtf8),
        Some(c) => if c == magic_line() {
            Ok(after_line(s))
        } else {
            Err(PlyError::BadMagic)
        },
    }
}

/// The line `format <name> ...`; returns the format and what follows the line.
pub open spec fn format_rest(s: Seq<u8>) -> Result<(PlyFormat, Seq<u8>), PlyError> {
    match line_tokens(s) {
        None => Err(PlyError::InvalidUtf8),
        Some(t) => if t.len() >= 2 && t[0] == kw_format() && format_of(t[1]) is Some {
            Ok((format_of(t[1]).unwrap(), after_line(s)))
        } else {
            Err(PlyError::BadFormat)
        },
    }
}

/// Skips the lines whose first token is `comment`; returns the text from the first
/// other line on. A line without any token is an error here.
pub open spec fn skip_comments(s: Seq<u8>) -> Result<Seq<u8>, PlyError>
    decreases s.len(),
{
    match line_tokens(s) {
        None => Err(PlyError::InvalidUtf8),
        Some(t) => if t.len() == 0 {
            Err(PlyError::BadElement)
        } else if t[0] == kw_comment() {
            proof {
                lemma_line_len(s);
                if s.len() == 0 {
                    lemma_no_tokens_at_end(s);
                }
            }
            skip_comments(after_line(s))
        } else {
            Ok(s)
        },
    }
}

/// The line `element vertex <count> ...`; returns the count and what follows the line.
pub open spec fn element_rest(s: Seq<u8>) -> Result<(usize, Seq<u8>), PlyError> {
    match line_tokens(s) {
        None => Err(PlyError::InvalidUtf8),
        Some(t) => if t.len() >= 3 && t[0] == kw_element() && t[1] == kw_vertex() && parse_usize(t[2]) is Some {
            Ok((parse_usize(t[2]).unwrap(), after_line(s)))
        } else {
            Err(PlyError::BadElement)
        },
    }
}

/// `k` lines `property float ...`; returns what follows them.
pub open spec fn properties_rest(s: Seq<u8>, k: nat) -> Result<Seq<u8>, PlyError>
    decreases k,
{
    if k == 0 {
        Ok(s)
    } else {
        match line_tokens(s) {
            None => Err(PlyError::InvalidUtf8),
            Some(t) => if t.len() >= 2 && t[0] == kw_property() && t[1] == kw_float() {
                properties_rest(after_line(s), (k - 1) as nat)
            } else {
                Err(PlyError::BadProperty)
            },
        }
    }
}

/// The line `end_header`; returns what follows it: the vertex records.
pub open spec fn end_header_rest(s: Seq<u8>) -> Result<Seq<u8>, PlyError> {
    match line_chars(first_line(s)) {
        None => Err(PlyError::InvalidUtf8),
        Some(c) => if c == end_header_line() {
            Ok(after_line(s))
        } else {
            Err(PlyError::BadEndHeader)
        },
    }
}

/// The header of a Gaussian-splat PLY file, line by line: `ply`; `format <name>`;
/// any number of `comment` lines; `element vertex <count>`; 59 lines
/// `property float ...`; `end_header`; then exactly `236 * count` bytes of vertex
/// records. The first line that breaks this decides the error.
pub open spec fn spec_parse_ply_header(s: Seq<u8>) -> Result<PlyHeader, PlyError> {
    match magic_rest(s) {
        Err(e) => Err(e),
        Ok(s1) => match format_rest(s1) {
            Err(e) => Err(e),
            Ok((format, s2)) => match skip_comments(s2) {
                Err(e) => Err(e),
                Ok(s3) => match element_rest(s3) {
                    Err(e) => Err(e),
                    Ok((num_elem, s4)) => match properties_rest(s4, NUM_PROPERTIES as nat) {
                        Err(e) => Err(e),
                        Ok(s5) => match end_header_rest(s5) {
                            Err(e) => Err(e),
                            Ok(payload) => if payload.len() == RECORD_BYTES * num_elem {
                                Ok(
                                    PlyHeader {
                                        format,
                                        num_elem,
                                        payload_start: (s.len() - payload.len()) as usize,
                                    },
                                )
                            } else {
                                Err(PlyError::PayloadSize)
                            },
                        },
                    },
                },
            },
        },
    }
}

/// `res` is the position in `bytes` at which the text `spec_res` starts, or the same error.
pub open spec fn rest_matches(
    bytes: Seq<u8>,
    res: Result<usize, PlyError>,
    spec_res: Result<Seq<u8>, PlyError>,
) -> bool {
    match spec_res {
        Ok(r) => res matches Ok(p) && p <= bytes.len() && bytes.skip(p as int) == r,
        Err(e) => res == Err::<usize, PlyError>(e),
    }
}

/// Reads the line that starts at `pos`: its characters when it is valid UTF-8, and
/// the position where the next line starts.
fn read_line_chars(bytes: &[u8], pos: usize) -> (res: (Option<Vec<char>>, usize))
    requires
        pos <= bytes@.len(),
    ensures
        res.1 <= bytes@.len(),
        bytes@.skip(res.1 as int) == after_line(bytes@.skip(pos as int)),
        res.0 is Some == line_chars(first_line(bytes@.skip(pos as int))) is Some,
        res.0 matches Some(c) ==> line_chars(first_line(bytes@.skip(pos as int))) == Some(c@),
        pos < bytes@.len() ==> res.1 > pos,
{
    let end = line_end(bytes, pos);
    proof {
        lemma_line_len(bytes@.skip(pos as int));
    }
    let line = vstd::slice::slice_subrange(bytes, pos, end);
    assert(line@ =~= first_line(bytes@.skip(pos as int)));
    assert(bytes@.skip(end as int) =~= after_line(bytes@.skip(pos as int)));
    (decode_line(line), end)
}

/// Reads the line that starts at `pos`: its tokens when it is valid UTF-8, and the
/// position where the next line starts.
fn read_line_tokens(bytes: &[u8], pos: usize) -> (res: (Option<Vec<Vec<char>>>, usize))
    requires
        pos <= bytes@.len(),
    ensures
        res.1 <= bytes@.len(),
        bytes@.skip(res.1 as int) == after_line(bytes@.skip(pos as int)),
        res.0 is Some == line_tokens(bytes@.skip(pos as int)) is Some,
        res.0 matches Some(t) ==> line_tokens(bytes@.skip(pos as int)) == Some(t.deep_view()),
        pos < bytes@.len() ==> res.1 > pos,
{
    let (chars, end) = read_line_chars(bytes, pos);
    match chars {
        Some(c) => (Some(split_whitespace_chars(&c)), end),
        None => (None, end),
    }
}

/// Whether the characters of `t` are exactly those of `kw`.
fn chars_eq(t: &Vec<char>, kw: &[char]) -> (b: bool)
    ensures
        b == (t@ == kw@),
{
    if t.len() != kw.len() {
        return false;
    }
    let mut i: usize = 0;
    while i < t.len()
        invariant
            t@.len() == kw@.len(),
            i <= t@.len(),
            forall|k: int| 0 <= k < i ==> t@[k] == kw@[k],
        decreases t@.len() - i,
    {
        if t[i] != kw[i] {
            return false;
        }
        i = i + 1;
    }
    assert(t@ =~= kw@);
    true
}

fn parse_magic(bytes: &[u8], pos: usize) -> (res: Result<usize, PlyError>)
    requires
        pos <= bytes@.len(),
    ensures
        rest_matches(bytes@, res, magic_rest(bytes@.skip(pos as int))),
{
    let (chars, end) = read_line_chars(bytes, pos);
    match chars {
        None => Err(PlyError::InvalidUtf8),
        Some(c) => {
            let kw = ['p', 'l', 'y', '\n'];
            assert(kw@ =~= magic_line());
            if chars_eq(&c, &kw) {
                Ok(end)
            } else {
                Err(PlyError::BadMagic)
            }
        },
    }
}

fn parse_end_header(bytes: &[u8], pos: usize) -> (res: Result<usize, PlyError>)
    requires
        pos <= bytes@.len(),
    ensures
        rest_matches(bytes@, res, end_header_rest(bytes@.skip(pos as int))),
{
    let (chars, end) = read_line_chars(bytes, pos);
    match chars {
        None => Err(PlyError::InvalidUtf8),
        Some(c) => {
            let kw = ['e', 'n', 'd', '_', 'h', 'e', 'a', 'd', 'e', 'r', '\n'];
            assert(kw@ =~= end_header_line());
            if chars_eq(&c, &kw) {
                Ok(end)
            } else {
                Err(PlyError::BadEndHeader)
            }
        },
    }
}

/// The format named by a token.
fn format_of_token(t: &Vec<char>) -> (res: Option<PlyFormat>)
    ensures
        res == format_of(t@),
{
    let little = [
        'b', 'i', 'n', 'a', 'r', 'y', '_', 'l', 'i', 't', 't', 'l', 'e', '_', 'e', 'n', 'd', 'i', 'a', 'n',
    ];
    let big = ['b', 'i', 'n', 'a', 'r', 'y', '_', 'b', 'i', 'g', '_', 'e', 'n', 'd', 'i', 'a', 'n'];
    let ascii = ['a', 's', 'c', 'i', 'i'];
    assert(little@ =~= kw_binary_little_endian());
    assert(big@ =~= kw_binary_big_endian());
    assert(ascii@ =~= kw_ascii());
    if chars_eq(t, &little) {
        Some(PlyFormat::BinaryLittleEndian)
    } else if chars_eq(t, &big) {
        Some(PlyFormat::BinaryBigEndian)
    } else if chars_eq(t, &ascii) {
        Some(PlyFormat::Ascii)
    } else {
        None
    }
}

fn parse_format(bytes: &[u8], pos: usize) -> (res: Result<(PlyFormat, usize), PlyError>)
    requires
        pos <= bytes@.len(),
    ensures
        match format_rest(bytes@.skip(pos as int)) {
            Ok((f, r)) => res matches Ok((g, p)) && g == f && p <= bytes@.len() && bytes@.skip(p as int) == r,
            Err(e) => res == Err::<(PlyFormat, usize), PlyError>(e),
        },
{
    let (toks, end) = read_line_tokens(bytes, pos);
    match toks {
        None => Err(PlyError::InvalidUtf8),
        Some(t) => {
            let ghost tv = t.deep_view();
            if t.len() < 2 {
                return Err(PlyError::BadFormat);
            }
            assert(tv[0] == t@[0]@ && tv[1] == t@[1]@);
            let kw = ['f', 'o', 'r', 'm', 'a', 't'];
            assert(kw@ =~= kw_format());
            if !chars_eq(&t[0], &kw) {
                return Err(PlyError::BadFormat);
            }
            match format_of_token(&t[1]) {
                Some(f) => Ok((f, end)),
                None => Err(PlyError::BadFormat),
            }
        },
    }
}

fn skip_comment_lines(bytes: &[u8], pos: usize) -> (res: Result<usize, PlyError>)
    requires
        pos <= bytes@.len(),
    ensures
        rest_matches(bytes@, res, skip_comments(bytes@.skip(pos as int))),
{
    let mut p = pos;
    let kw = ['c', 'o', 'm', 'm', 'e', 'n', 't'];
    assert(kw@ =~= kw_comment());
    loop
        invariant
            p <= bytes@.len(),
            kw@ == kw_comment(),
            skip_comments(bytes@.skip(pos as int)) == skip_comments(bytes@.skip(p as int)),
        decreases bytes@.len() - p,
    {
        let (toks, end) = read_line_tokens(bytes, p);
        match toks {
            None => {
                return Err(PlyError::InvalidUtf8);
            },
            Some(t) => {
                if t.len() == 0 {
                    return Err(PlyError::BadElement);
                }
                assert(t.deep_view()[0] == t@[0]@);
                if !chars_eq(&t[0], &kw) {
                    return Ok(p);
                }
                proof {
                    if p == bytes@.len() {
                        assert(bytes@.skip(p as int).len() == 0);
                        lemma_no_tokens_at_end(bytes@.skip(p as int));
                    }
                }
                p = end;
            },
        }
    }
}

fn parse_element(bytes: &[u8], pos: usize) -> (res: Result<(usize, usize), PlyError>)
    requires
        pos <= bytes@.len(),
    ensures
        match element_rest(bytes@.skip(pos as int)) {
            Ok((n, r)) => res matches Ok((m, p)) && m == n && p <= bytes@.len() && bytes@.skip(p as int) == r,
            Err(e) => res == Err::<(usize, usize), PlyError>(e),
        },
{
    let (toks, end) = read_line_tokens(bytes, pos);
    match toks {
        None => Err(PlyError::InvalidUtf8),
        Some(t) => {
            if t.len() < 3 {
                return Err(PlyError::BadElement);
            }
            let ghost tv = t.deep_view();
            assert(tv[0] == t@[0]@ && tv[1] == t@[1]@ && tv[2] == t@[2]@);
            let kw_e = ['e', 'l', 'e', 'm', 'e', 'n', 't'];
            let kw_v = ['v', 'e', 'r', 't', 'e', 'x'];
            assert(kw_e@ =~= kw_element());
            assert(kw_v@ =~= kw_vertex());
            if !chars_eq(&t[0], &kw_e) || !chars_eq(&t[1], &kw_v) {
                return Err(PlyError::BadElement);
            }
            match parse_usize_chars(&t[2]) {
                Some(n) => Ok((n, end)),
                None => Err(PlyError::BadElement),
            }
        },
    }
}

fn parse_properties(bytes: &[u8], pos: usize, count: usize) -> (res: Result<usize, PlyError>)
    requires
        pos <= bytes@.len(),
    ensures
        rest_matches(bytes@, res, properties_rest(bytes@.skip(pos as int), count as nat)),
{
    let mut p = pos;
    let mut k: usize = 0;
    let kw_p = ['p', 'r', 'o', 'p', 'e', 'r', 't', 'y'];
    let kw_f = ['f', 'l', 'o', 'a', 't'];
    assert(kw_p@ =~= kw_property());
    assert(kw_f@ =~= kw_float());
    while k < count
        invariant
            p <= bytes@.len(),
            k <= count,
            kw_p@ == kw_property(),
            kw_f@ == kw_float(),
            properties_rest(bytes@.skip(pos as int), count as nat) == properties_rest(
                bytes@.skip(p as int),
                (count - k) as nat,
            ),
        decreases count - k,
    {
        let (toks, end) = read_line_tokens(bytes, p);
        match toks {
            None => {
                return Err(PlyError::InvalidUtf8);
            },
            Some(t) => {
                if t.len() < 2 {
                    return Err(PlyError::BadProperty);
                }
                let ghost tv = t.deep_view();
                assert(tv[0] == t@[0]@ && tv[1] == t@[1]@);
                if !chars_eq(&t[0], &kw_p) || !chars_eq(&t[1], &kw_f) {
                    return Err(PlyError::BadProperty);
                }
                p = end;
                k = k + 1;
            },
        }
    }
    Ok(p)
}

/// Whether a reader may take `bytes` as a Gaussian-splat PLY file: its header is well
/// formed and followed by exactly its vertex records, or a header line that comes
/// before any malformed one is not valid UTF-8 (a read error, not a malformed file).
pub open spec fn ply_header_readable(bytes: Seq<u8>) -> bool {
    spec_parse_ply_header(bytes) is Ok || spec_parse_ply_header(bytes) == Err::<PlyHeader, PlyError>(
        PlyError::InvalidUtf8,
    )
}

/// Checks the header of a Gaussian-splat PLY file held in `bytes`, as
/// `spec_parse_ply_header` describes it, and that what follows it is exactly
/// `num_elem` vertex records; the error names the first line that breaks the grammar.
pub fn check_ply_header(bytes: &[u8]) -> (res: Result<PlyHeader, PlyError>)
    ensures
        res == spec_parse_ply_header(bytes@),
{
    assert(bytes@.skip(0) =~= bytes@);
    let p1 = match parse_magic(bytes, 0) {
        Ok(p) => p,
        Err(e) => {
            return Err(e);
        },
    };
    let (format, p2) = match parse_format(bytes, p1) {
        Ok(r) => r,
        Err(e) => {
            return Err(e);
        },
    };
    let p3 = match skip_comment_lines(bytes, p2) {
        Ok(p) => p,
        Err(e) => {
            return Err(e);
        },
    };
    let (num_elem, p4) = match parse_element(bytes, p3) {
        Ok(r) => r,
        Err(e) => {
            return Err(e);
        },
    };
    let p5 = match parse_properties(bytes, p4, NUM_PROPERTIES) {
        Ok(p) => p,
        Err(e) => {
            return Err(e);
        },
    };
    let p6 = match parse_end_header(bytes, p5) {
        Ok(p) => p,
        Err(e) => {
            return Err(e);
        },
    };
    let payload_len = bytes.len() - p6;
    match num_elem.checked_mul(RECORD_BYTES) {
        Some(m) => {
            if m == payload_len {
                Ok(PlyHeader { format, num_elem, payload_start: p6 })
            } else {
                Err(PlyError::PayloadSize)
            }
        },
        None => Err(PlyError::PayloadSize),
    }
}

/// Reads the header of a PLY file that `check_ply_header` accepts, or whose first
/// bad header line is not valid UTF-8: the header, or `InvalidUtf8`.
pub fn parse_ply_header(bytes: &[u8]) -> (res: Result<PlyHeader, PlyError>)
    requires
        ply_header_readable(bytes@),
    ensures
        res == spec_parse_ply_header(bytes@),
        res is Err ==> res == Err::<PlyHeader, PlyError>(PlyError::InvalidUtf8),
{
    check_ply_header(bytes)
}

/// The 32-bit word stored little-endian at offset `o` of `s`.
pub open spec fn le_u32_at(s: Seq<u8>, o: int) -> u32 {
    (s[o] as int + 256 * (s[o + 1] as int) + 65536 * (s[o + 2] as int) + 16777216 * (s[o
        + 3] as int)) as u32
}

/// Reads `n` consecutive little-endian 32-bit words starting at byte `i_buff`: the
/// bit patterns of the `n` 32-bit floats stored there.
pub fn parse_f32_bits(buff: &[u8], i_buff: usize, n: usize) -> (words: Vec<u32>)
    requires
        i_buff + 4 * n <= buff@.len(),
    ensures
        words@.len() == n,
        forall|i: int| 0 <= i < n ==> #[trigger] words@[i] == le_u32_at(buff@, i_buff + 4 * i),
{
    let mut words: Vec<u32> = Vec::new();
    let mut i: usize = 0;
    let len = buff.len();
    while i < n
        invariant
            len == buff@.len(),
            i <= n,
            i_buff + 4 * n <= buff@.len(),
            words@.len() == i,
            forall|k: int| 0 <= k < i ==> #[trigger] words@[k] == le_u32_at(buff@, i_buff + 4 * k),
        decreases n - i,
    {
        let o = i_buff + 4 * i;
        let w: u32 = buff[o] as u32 + 256 * (buff[o + 1] as u32) + 65536 * (buff[o + 2] as u32)
            + 16777216 * (buff[o + 3] as u32);
        words.push(w);
        i = i + 1;
    }
    words
}

/// Every vertex record announced by a header that parses lies inside the file:
/// record `i` occupies the bytes `payload_start + 236 i` to `payload_start + 236 (i + 1)`.
pub proof fn lemma_records_in_bounds(bytes: Seq<u8>, i: nat)
    requires
        bytes.len() <= usize::MAX,
        spec_parse_ply_header(bytes) is Ok,
        i < spec_parse_ply_header(bytes)->Ok_0.num_elem,
    ensures
        spec_parse_ply_header(bytes)->Ok_0.payload_start + RECORD_BYTES * (i + 1) <= bytes.len(),
{
    let h = spec_parse_ply_header(bytes)->Ok_0;
    lemma_header_payload(bytes);
    assert(RECORD_BYTES * (i + 1) <= RECORD_BYTES * h.num_elem) by (nonlinear_arith)
        requires
            i < h.num_elem,
    ;
}

/// On success the vertex records are exactly the bytes from `payload_start` to the end.
pub proof fn lemma_header_payload(bytes: Seq<u8>)
    requires
        bytes.len() <= usize::MAX,
        spec_parse_ply_header(bytes) is Ok,
    ensures
        spec_parse_ply_header(bytes)->Ok_0.payload_start + RECORD_BYTES * spec_parse_ply_header(
            bytes,
        )->Ok_0.num_elem == bytes.len(),
{
    let s = bytes;
    let s1 = magic_rest(s)->Ok_0;
    let (format, s2) = format_rest(s1)->Ok_0;
    let s3 = skip_comments(s2)->Ok_0;
    let (num_elem, s4) = element_rest(s3)->Ok_0;
    let s5 = properties_rest(s4, NUM_PROPERTIES as nat)->Ok_0;
    let payload = end_header_rest(s5)->Ok_0;
    lemma_suffix_chain(s, s1, s2, s3, s4, s5, payload);
}

/// Each step of the header grammar hands on a suffix of what it was given.
proof fn lemma_suffix_chain(
    s: Seq<u8>,
    s1: Seq<u8>,
    s2: Seq<u8>,
    s3: Seq<u8>,
    s4: Seq<u8>,
    s5: Seq<u8>,
    p: Seq<u8>,
)
    requires
        magic_rest(s) == Ok::<_, PlyError>(s1),
        format_rest(s1) matches Ok((_, r)) && r == s2,
        skip_comments(s2) == Ok::<_, PlyError>(s3),
        element_rest(s3) matches Ok((_, r)) && r == s4,
        properties_rest(s4, NUM_PROPERTIES as nat) == Ok::<_, PlyError>(s5),
        end_header_rest(s5) == Ok::<_, PlyError>(p),
    ensures
        p.len() <= s.len(),
{
    lemma_line_len(s);
    lemma_line_len(s1);
    lemma_skip_comments_suffix(s2);
    lemma_line_len(s3);
    lemma_properties_suffix(s4, NUM_PROPERTIES as nat);
    lemma_line_len(s5);
}

proof fn lemma_skip_comments_suffix(s: Seq<u8>)
    ensures
        skip_comments(s) matches Ok(r) ==> r.len() <= s.len(),
    decreases s.len(),
{
    lemma_line_len(s);
    if let Some(t) = line_tokens(s) {
        if t.len() > 0 && t[0] == kw_comment() {
            if s.len() == 0 {
                lemma_no_tokens_at_end(s);
            } else {
                lemma_skip_comments_suffix(after_line(s));
            }
        }
    }
}

proof fn lemma_properties_suffix(s: Seq<u8>, k: nat)
    ensures
        properties_rest(s, k) matches Ok(r) ==> r.len() <= s.len(),
    decreases k,
{
    lemma_line_len(s);
    if k > 0 {
        lemma_properties_suffix(after_line(s), (k - 1) as nat);
    }
}

/// A complete line: it ends with its only newline.
pub open spec fn is_line(l: Seq<u8>) -> bool {
    &&& l.len() >= 1
    &&& l[l.len() - 1] == 10u8
    &&& forall|i: int| 0 <= i < l.len() - 1 ==> l[i] != 10u8
}

/// A complete comment line: valid UTF-8 whose first token is `comment`.
pub open spec fn is_comment_line(c: Seq<u8>) -> bool {
    &&& is_line(c)
    &&& line_tokens(c) matches Some(t) && t.len() > 0 && t[0] == kw_comment()
}

/// Comment lines are skipped: inserting one right after the `format` line changes
/// neither the outcome nor the format and the vertex count, and moves the records
/// by the length of the comment.
pub proof fn lemma_comment_line_ignored(h1: Seq<u8>, h2: Seq<u8>, c: Seq<u8>, r: Seq<u8>)
    requires
        is_line(h1),
        is_line(h2),
        is_comment_line(c),
        (h1 + h2 + c + r).len() <= usize::MAX,
    ensures
        spec_parse_ply_header(h1 + h2 + c + r) == match spec_parse_ply_header(h1 + h2 + r) {
            Ok(h) => Ok(
                PlyHeader { payload_start: (h.payload_start + c.len()) as usize, ..h },
            ),
            Err(e) => Err(e),
        },
{
    let with_c = h1 + h2 + c + r;
    let without = h1 + h2 + r;
    assert(with_c =~= h1 + (h2 + (c + r)));
    assert(without =~= h1 + (h2 + r));
    lemma_line_prefix(h1, h2 + (c + r));
    lemma_line_prefix(h1, h2 + r);
    lemma_line_prefix(h2, c + r);
    lemma_line_prefix(h2, r);
    lemma_line_prefix(c, r);
    lemma_line_prefix(c, Seq::<u8>::empty());
    assert(c + Seq::<u8>::empty() =~= c);
    assert(line_tokens(c + r) == line_tokens(c));
    assert(skip_comments(c + r) == skip_comments(r));
    assert(first_line(h1 + (h2 + (c + r))) == first_line(h1 + (h2 + r)));
    assert(first_line(h2 + (c + r)) == first_line(h2 + r));
    if spec_parse_ply_header(without) is Ok {
        lemma_header_payload(without);
    }
}

} // verus!

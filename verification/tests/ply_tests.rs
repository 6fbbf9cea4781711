use render_core::ply::{check_ply_header, parse_f32_bits, parse_ply_header, PlyError, PlyFormat, PlyHeader};
use render_core::text::{parse_usize_chars, split_whitespace_chars};

const PROPERTY_NAMES: [&str; 14] = [
    "x", "y", "z", "scale_0", "scale_1", "scale_2", "f_dc_0", "f_dc_1", "f_dc_2", "opacity", "rot_0",
    "rot_1", "rot_2", "rot_3",
];

fn header(format: &str, comments: &[&str], count: &str) -> Vec<u8> {
    let mut h = String::from("ply\n");
    h.push_str(&format!("format {} 1.0\n", format));
    for c in comments {
        h.push_str(c);
        h.push('\n');
    }
    h.push_str(&format!("element vertex {}\n", count));
    for name in PROPERTY_NAMES.iter() {
        h.push_str(&format!("property float {}\n", name));
    }
    for i in 0..45 {
        h.push_str(&format!("property float f_rest_{}\n", i));
    }
    h.push_str("end_header\n");
    h.into_bytes()
}

fn file(format: &str, comments: &[&str], count: usize) -> Vec<u8> {
    let mut bytes = header(format, comments, &count.to_string());
    bytes.extend(std::iter::repeat(7u8).take(236 * count));
    bytes
}

#[test]
fn reads_a_binary_little_endian_header() {
    let bytes = file("binary_little_endian", &[], 2);
    let header_len = bytes.len() - 472;
    assert_eq!(
        parse_ply_header(&bytes),
        Ok(PlyHeader { format: PlyFormat::BinaryLittleEndian, num_elem: 2, payload_start: header_len })
    );
}

#[test]
fn reads_the_other_formats() {
    let bytes = file("binary_big_endian", &[], 1);
    assert_eq!(parse_ply_header(&bytes).map(|h| h.format), Ok(PlyFormat::BinaryBigEndian));
    let bytes = file("ascii", &[], 0);
    assert_eq!(parse_ply_header(&bytes).map(|h| (h.format, h.num_elem)), Ok((PlyFormat::Ascii, 0)));
}

#[test]
fn comments_only_shift_the_records() {
    let plain = file("binary_little_endian", &[], 3);
    let commented = file(
        "binary_little_endian",
        &["comment made by a trainer", "comment   second\tline"],
        3,
    );
    let a = parse_ply_header(&plain).unwrap();
    let b = parse_ply_header(&commented).unwrap();
    assert_eq!(a.num_elem, b.num_elem);
    assert_eq!(a.format, b.format);
    assert_eq!(b.payload_start - a.payload_start, commented.len() - plain.len());
}

#[test]
fn unicode_whitespace_separates_tokens() {
    let mut bytes = Vec::new();
    bytes.extend_from_slice("ply\nformat\u{3000}binary_little_endian\u{00a0}1.0\n".as_bytes());
    let rest = file("binary_little_endian", &[], 1);
    let skip = "ply\nformat binary_little_endian 1.0\n".len();
    bytes.extend_from_slice(&rest[skip..]);
    assert_eq!(parse_ply_header(&bytes).map(|h| h.num_elem), Ok(1));
}

#[test]
fn errors_name_the_first_bad_line() {
    let good = file("binary_little_endian", &[], 1);
    let text = String::from_utf8(good.clone()).unwrap();

    let bad_magic = text.replacen("ply\n", "plx\n", 1).into_bytes();
    assert_eq!(check_ply_header(&bad_magic), Err(PlyError::BadMagic));

    let crlf = text.replacen("ply\n", "ply\r\n", 1).into_bytes();
    assert_eq!(check_ply_header(&crlf), Err(PlyError::BadMagic));

    let bad_format = text.replacen("binary_little_endian", "binary_middle_endian", 1).into_bytes();
    assert_eq!(check_ply_header(&bad_format), Err(PlyError::BadFormat));

    let no_name = text.replacen("format binary_little_endian 1.0\n", "format\n", 1).into_bytes();
    assert_eq!(check_ply_header(&no_name), Err(PlyError::BadFormat));

    let blank = text.replacen("element", "\nelement", 1).into_bytes();
    assert_eq!(check_ply_header(&blank), Err(PlyError::BadElement));

    let face = text.replacen("element vertex", "element face", 1).into_bytes();
    assert_eq!(check_ply_header(&face), Err(PlyError::BadElement));

    let neg = text.replacen("element vertex 1", "element vertex -1", 1).into_bytes();
    assert_eq!(check_ply_header(&neg), Err(PlyError::BadElement));

    let double = text.replacen("property float x\n", "property double x\n", 1).into_bytes();
    assert_eq!(check_ply_header(&double), Err(PlyError::BadProperty));

    let no_end = text.replacen("end_header\n", "end_header \n", 1).into_bytes();
    assert_eq!(check_ply_header(&no_end), Err(PlyError::BadEndHeader));

    let mut short = good.clone();
    short.pop();
    assert_eq!(check_ply_header(&short), Err(PlyError::PayloadSize));

    let mut long = good.clone();
    long.push(0);
    assert_eq!(check_ply_header(&long), Err(PlyError::PayloadSize));
}

#[test]
fn header_lines_must_be_utf8() {
    let good = file("binary_little_endian", &[], 1);
    let mut bytes = b"ply\nformat binary_little_endian 1.0\ncomment \xff\xfe\n".to_vec();
    let skip = "ply\nformat binary_little_endian 1.0\n".len();
    bytes.extend_from_slice(&good[skip..]);
    assert_eq!(parse_ply_header(&bytes), Err(PlyError::InvalidUtf8));
    // invalid bytes in the records are not read as text
    let mut binary = file("binary_little_endian", &[], 1);
    let n = binary.len();
    binary[n - 1] = 0xff;
    assert!(parse_ply_header(&binary).is_ok());
}

#[test]
fn truncated_headers_are_rejected() {
    assert_eq!(check_ply_header(b""), Err(PlyError::BadMagic));
    assert_eq!(check_ply_header(b"ply"), Err(PlyError::BadMagic));
    assert_eq!(check_ply_header(b"ply\n"), Err(PlyError::BadFormat));
    assert_eq!(check_ply_header(b"ply\nformat ascii 1.0\n"), Err(PlyError::BadElement));
    assert_eq!(
        check_ply_header(b"ply\nformat ascii 1.0\nelement vertex 0\n"),
        Err(PlyError::BadProperty)
    );
    let mut h = header("ascii", &[], "0");
    h.truncate(h.len() - "end_header\n".len());
    assert_eq!(check_ply_header(&h), Err(PlyError::BadEndHeader));
}

#[test]
fn vertex_count_reads_like_from_str() {
    let count = |s: &str| parse_usize_chars(&s.chars().collect::<Vec<char>>());
    assert_eq!(count("0"), Some(0));
    assert_eq!(count("+17"), Some(17));
    assert_eq!(count("007"), Some(7));
    assert_eq!(count("+"), None);
    assert_eq!(count(""), None);
    assert_eq!(count("-0"), None);
    assert_eq!(count("12a"), None);
    assert_eq!(count("18446744073709551615"), "18446744073709551615".parse::<usize>().ok());
    assert_eq!(count("18446744073709551616"), None);
    assert_eq!(count("99999999999999999999999"), None);
    for s in ["5", "+5", "++5", "", "4294967296", "x"] {
        assert_eq!(count(s), s.parse::<usize>().ok());
    }
}

#[test]
fn tokens_match_split_whitespace() {
    for s in ["", "  ", "a b", " a\t\tb \n", "x\u{2003}y\u{3000}z", "\u{85}q\u{a0}", "one"] {
        let chars: Vec<char> = s.chars().collect();
        let toks: Vec<String> =
            split_whitespace_chars(&chars).into_iter().map(|t| t.into_iter().collect()).collect();
        let expected: Vec<String> = s.split_whitespace().map(|t| t.to_string()).collect();
        assert_eq!(toks, expected);
    }
}

#[test]
fn float_words_are_little_endian() {
    let mut bytes = vec![0xAAu8];
    bytes.extend_from_slice(&1.0f32.to_le_bytes());
    bytes.extend_from_slice(&(-2.5f32).to_le_bytes());
    let words = parse_f32_bits(&bytes, 1, 2);
    assert_eq!(words, vec![0x3f80_0000, (-2.5f32).to_bits()]);
    assert_eq!(f32::from_bits(words[1]), -2.5);
    assert_eq!(parse_f32_bits(&bytes, 9, 0), Vec::<u32>::new());
}

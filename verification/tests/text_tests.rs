use raytracer::float_text::{is_float_str, is_float_text};
use raytracer::text::{is_whitespace, split_chars, split_whitespace_pieces, str_chars, trim_chars, Separator};

#[test]
fn whitespace_agrees_with_char_is_whitespace() {
    for u in 0u32..=0x3100 {
        if let Some(c) = char::from_u32(u) {
            assert_eq!(is_whitespace(c), c.is_whitespace(), "{:x}", u);
        }
    }
    assert!(!is_whitespace('\u{10ffff}'));
}

#[test]
fn trim_agrees_with_str_trim() {
    for s in ["", "  ", " a b ", "\t\u{3000}x\r\n", "abc", "\u{85}q"] {
        let chars = str_chars(s);
        let t: String = trim_chars(&chars).into_iter().collect();
        assert_eq!(t, s.trim());
    }
}

#[test]
fn split_agrees_with_str_split() {
    for s in ["", "a", "a b", " a  b ", "1/2/3", "1//3", "/"] {
        let chars = str_chars(s);
        let ws: Vec<String> = split_chars(&chars, Separator::Whitespace)
            .into_iter()
            .map(|p| p.into_iter().collect())
            .collect();
        let expected: Vec<String> = s.split(char::is_whitespace).map(|p| p.to_string()).collect();
        assert_eq!(ws, expected);
        let slash: Vec<String> = split_chars(&chars, Separator::Char('/'))
            .into_iter()
            .map(|p| p.into_iter().collect())
            .collect();
        let expected: Vec<String> = s.split('/').map(|p| p.to_string()).collect();
        assert_eq!(slash, expected);
    }
    assert_eq!(split_whitespace_pieces("x y"), vec!["x".to_string(), "y".to_string()]);
}

#[test]
fn float_text_agrees_with_f32_parse() {
    let cases = [
        "0", "1.5", "-2", "+3.", ".5", "-.5", "1e5", "1E-5", "2.5e+10", "inf", "-Infinity", "NaN", "+nan",
        "", ".", "e5", "1e", "1e+", "1.2.3", " 1", "1 ", "--1", "+", "infinit", "nan0", "0x10", "1_000",
        "1.e3", "00.00", "5e05", "in", "-", "1,5", "١",
    ];
    for s in cases {
        let chars: Vec<char> = s.chars().collect();
        assert_eq!(is_float_text(&chars), s.parse::<f32>().is_ok(), "{:?}", s);
        assert_eq!(is_float_str(s), s.parse::<f32>().is_ok(), "{:?}", s);
    }
}

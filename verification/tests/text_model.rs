use std::path::{Path, PathBuf};

use clawyer::commands::{join_path, non_empty_trimmed, trimmed};
use clawyer::number::parse_u32;
use clawyer::paths::path_starts_with;
use clawyer::text::{
    chars_of, find_delim, is_space_char, last_piece_start, line_spans, nth_field, split_spans,
    string_of, trim_span, utf8_width_of, Delim,
};

const SAMPLES: &[&str] = &[
    "",
    "a",
    "\n",
    "\n\n",
    "a\nb",
    "a\nb\n",
    "a\r\nb\r\n",
    "a\rb",
    "foo\nbar\n\r",
    "x\r",
    "\r\n",
    "  lead",
    "trail  ",
    "\t mixed \u{a0}\u{3000}",
    "a -> b",
    " -> -> ",
    "R  old -> new",
    "one two  three",
    "\u{85}x\u{2028}y\u{205f}",
    "é日本🎉",
    "a/b//c/./d/",
];

fn spans_text(s: &str, spans: &[(usize, usize)]) -> Vec<String> {
    let c = chars_of(s);
    spans.iter().map(|&(a, b)| string_of(&c, a, b)).collect()
}

#[test]
fn whitespace_matches_char_is_whitespace() {
    for code in 0u32..0x3100 {
        if let Some(c) = char::from_u32(code) {
            assert_eq!(is_space_char(c), c.is_whitespace(), "{code:#x}");
        }
    }
    for c in ['\u{feff}', '\u{10ffff}', '\u{e000}'] {
        assert_eq!(is_space_char(c), c.is_whitespace());
    }
}

#[test]
fn utf8_width_matches_len_utf8() {
    for c in ['a', '\u{7f}', '\u{80}', 'é', '\u{7ff}', '\u{800}', '日', '\u{ffff}', '\u{10000}', '🎉'] {
        assert_eq!(utf8_width_of(c), c.len_utf8());
    }
}

#[test]
fn lines_match_str_lines() {
    for s in SAMPLES {
        let c = chars_of(s);
        let got = spans_text(s, &line_spans(&c));
        let want: Vec<String> = s.lines().map(str::to_string).collect();
        assert_eq!(got, want, "{s:?}");
    }
}

#[test]
fn split_matches_str_split() {
    for s in SAMPLES {
        let c = chars_of(s);
        let got = spans_text(s, &split_spans(&c, 0, c.len(), Delim::Char('/')));
        let want: Vec<String> = s.split('/').map(str::to_string).collect();
        assert_eq!(got, want, "{s:?}");
        let ws = spans_text(s, &split_spans(&c, 0, c.len(), Delim::Whitespace));
        let want_ws: Vec<String> = s.split(char::is_whitespace).map(str::to_string).collect();
        assert_eq!(ws, want_ws, "{s:?}");
    }
}

#[test]
fn trim_matches_str_trim() {
    for s in SAMPLES {
        let c = chars_of(s);
        let (a, b) = trim_span(&c, 0, c.len(), Delim::Whitespace);
        assert_eq!(string_of(&c, a, b), s.trim(), "{s:?}");
        assert_eq!(trimmed(s), s.trim());
        assert_eq!(non_empty_trimmed(s).as_deref(), Some(s.trim()).filter(|t| !t.is_empty()));
    }
    let q = "\"\"'value'\"";
    let c = chars_of(q);
    let (a, b) = trim_span(&c, 0, c.len(), Delim::Char('"'));
    assert_eq!(string_of(&c, a, b), q.trim_matches('"'));
}

#[test]
fn nth_field_matches_split_whitespace() {
    for s in SAMPLES {
        let c = chars_of(s);
        for n in 0..4 {
            let got = nth_field(&c, 0, c.len(), n).map(|(a, b)| string_of(&c, a, b));
            let want = s.split_whitespace().nth(n).map(str::to_string);
            assert_eq!(got, want, "{s:?} {n}");
        }
    }
}

#[test]
fn last_piece_matches_split_last() {
    let arrow = chars_of(" -> ");
    for s in SAMPLES.iter().chain([" ->  -> x", "a ->b -> c", " -> "].iter()) {
        let c = chars_of(s);
        let start = last_piece_start(&c, 0, c.len(), &arrow);
        assert_eq!(string_of(&c, start, c.len()), s.split(" -> ").last().unwrap(), "{s:?}");
    }
}

#[test]
fn find_delim_matches_split_once() {
    for s in ["a=b", "=b", "a=", "ab", "a=b=c"] {
        let c = chars_of(s);
        let got = find_delim(&c, 0, c.len(), Delim::Char('='))
            .map(|i| (string_of(&c, 0, i), string_of(&c, i + 1, c.len())));
        let want = s.split_once('=').map(|(x, y)| (x.to_string(), y.to_string()));
        assert_eq!(got, want);
    }
}

#[test]
fn parse_u32_matches_from_str() {
    for s in [
        "", "0", "7", "+7", "+", "-", "-0", "00012", "4294967295", "4294967296",
        "99999999999999999999", "1a", " 1", "1 ", "++1", "0000000000000000000042",
    ] {
        let c = chars_of(s);
        assert_eq!(parse_u32(&c, 0, c.len()), s.parse::<u32>().ok(), "{s:?}");
    }
}

#[test]
fn path_prefix_matches_path_starts_with() {
    let paths = [
        "", ".", "./", "/", "//", "a", "a/", "a//", "./a", "a/./b", "a/b", "a/bc", "ab",
        "crates/clawyer", "crates/clawyer/src/main.rs", "crates/clawyerx", "../a", "/a/b",
        "skills/x/./SKILL.md", "skills/x",
    ];
    for p in paths {
        for r in paths {
            let got = path_starts_with(&chars_of(p), &chars_of(r));
            assert_eq!(got, Path::new(p).starts_with(r), "{p:?} starts with {r:?}");
        }
    }
}

#[test]
fn join_matches_path_join() {
    for base in ["", "/", "/repo", "/repo/", "rel"] {
        for rel in ["docker-compose.yml", "a/b", "/abs", ""] {
            let want = PathBuf::from(base).join(rel);
            assert_eq!(join_path(base, rel), want.to_string_lossy(), "{base:?} + {rel:?}");
        }
    }
}


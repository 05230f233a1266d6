use delim_view::filter::compiler::{parse_u32, CompileError, Filter, Highlighter, Style};
use delim_view::filter::engine::{cmp_bytes, unquote_bytes, Engine};
use delim_view::filter::lexer::{CmpOp, Lexer, LogiOp, MatchOp, TokenKind};
use delim_view::{Decoder, NestedString};
use std::cmp::Ordering;

fn kinds(src: &str) -> Vec<(TokenKind, usize, usize)> {
    let mut lexer = Lexer::load(src);
    let mut out = Vec::new();
    loop {
        let t = lexer.next();
        out.push((t.kind, t.start, t.end));
        if t.kind == TokenKind::Eof {
            return out;
        }
    }
}

fn rejected(src: &str) -> CompileError {
    match Filter::new(src, 2) {
        Err(e) => e,
        Ok(_) => panic!("{src} should not compile"),
    }
}

fn rec(line: &[u8]) -> NestedString {
    let mut r = NestedString::new();
    r.read_from(&mut Decoder::new(b','), line);
    r
}

fn accepts(filter: &str, nb_col: usize, line: &[u8]) -> bool {
    let f = Filter::new(filter, nb_col).expect("filter compiles");
    Engine::new(&f).check(&rec(line))
}

#[test]
fn lexer_operators_and_words() {
    assert_eq!(
        kinds("0 >= 12 && not 1 ne \"x y\""),
        vec![
            (TokenKind::Nb, 0, 1),
            (TokenKind::Cmp(CmpOp::Ge), 2, 4),
            (TokenKind::Nb, 5, 7),
            (TokenKind::Logi(LogiOp::And), 8, 10),
            (TokenKind::Not, 11, 14),
            (TokenKind::Nb, 15, 16),
            (TokenKind::Cmp(CmpOp::Ne), 17, 19),
            (TokenKind::Str, 20, 25),
            (TokenKind::Eof, 25, 25),
        ]
    );
}

#[test]
fn lexer_brackets_lists_and_barewords() {
    let k: Vec<TokenKind> = kinds("0[1:2]~any{abc,-3.5}").into_iter().map(|t| t.0).collect();
    assert_eq!(
        k,
        vec![
            TokenKind::Nb,
            TokenKind::OpenRange,
            TokenKind::Nb,
            TokenKind::SepRange,
            TokenKind::Nb,
            TokenKind::CloseRange,
            TokenKind::Matches,
            TokenKind::Match(MatchOp::Any),
            TokenKind::OpenList,
            TokenKind::Id,
            TokenKind::SepList,
            TokenKind::Nb,
            TokenKind::CloseList,
            TokenKind::Eof,
        ]
    );
}

#[test]
fn lexer_unicode_space_separates() {
    let k = kinds("a\u{00A0}b");
    assert_eq!(k[0], (TokenKind::Id, 0, 1));
    assert_eq!(k[1], (TokenKind::Id, 3, 4));
}

#[test]
fn lexer_unterminated_string_runs_to_end() {
    assert_eq!(kinds("\"abc"), vec![(TokenKind::Str, 0, 4), (TokenKind::Eof, 4, 4)]);
}

#[test]
fn parse_u32_values() {
    assert_eq!(parse_u32(b"42"), Some(42));
    assert_eq!(parse_u32(b"+7"), Some(7));
    assert_eq!(parse_u32(b"4294967295"), Some(u32::MAX));
    assert_eq!(parse_u32(b"4294967296"), None);
    assert_eq!(parse_u32(b""), None);
    assert_eq!(parse_u32(b"1.5"), None);
}

#[test]
fn empty_source_is_identity() {
    let f = Filter::new("   ", 3).expect("compiles");
    assert!(f.is_empty());
    assert!(Engine::new(&f).check(&rec(b"a,b,c\n")));
}

#[test]
fn compile_errors() {
    let e = rejected("5 > 1");
    assert_eq!((e.start, e.end, e.msg), (0, 1, "No column with this index"));
    let e = rejected("x > 1");
    assert_eq!(e.msg, "Expect a column index");
    let e = rejected("0 > 1 1");
    assert_eq!((e.start, e.msg), (6, "Expect && or ||"));
    let e = rejected("0[4:2]");
    assert_eq!(e.msg, "Invalid range");
    let e = rejected("0[1");
    assert_eq!(e.msg, "Expect ]");
    let e = rejected("0 ~ \"(\"");
    assert_eq!((e.start, e.end, e.msg), (4, 7, "Invalid regex"));
    let e = rejected("0 == any 1");
    assert_eq!(e.msg, "Expect {");
    let e = rejected("0 == {1, 2");
    assert_eq!(e.msg, "Expect }");
    let e = rejected("(0 > 1");
    assert_eq!(e.msg, "Expect )");
    let e = rejected("0 == )");
    assert_eq!(e.msg, "Expect a value");
    let e = rejected("0 ~ )");
    assert_eq!(e.msg, "Expect regex");
    let e = rejected("0[x]");
    assert_eq!(e.msg, "Expect ]");
}

#[test]
fn range_forms() {
    assert!(accepts("0[1] == b", 1, b"abc\n"));
    assert!(accepts("0[1~2] == bc", 1, b"abcd\n"));
    assert!(accepts("0[2~] == cd", 1, b"abcd\n"));
    assert!(accepts("0[~2] == ab", 1, b"abcd\n"));
    assert!(accepts("0[:2] == ab", 1, b"abcd\n"));
    assert!(accepts("0[1:3] == bc", 1, b"abcd\n"));
    assert!(accepts("0[2:9] == cd", 1, b"abcd\n"));
    assert!(!accepts("0[7]", 1, b"abcd\n"));
}

#[test]
fn numbers_and_strings_compare() {
    assert!(accepts("0 > 9", 1, b"10\n"));
    assert!(accepts("0 == 1.50", 1, b"1.5\n"));
    // a field that is not a number compares with the number's text
    assert!(accepts("0 > 10", 1, b"abc\n"));
    assert!(accepts("0 lt b", 1, b"a\n"));
    assert!(accepts("0 ne \"a\"", 1, b"b\n"));
    assert!(!accepts("0 eq \"a\"", 1, b"b\n"));
    assert!(accepts("0 <= any{1, 5}", 1, b"3\n"));
    assert!(!accepts("0 <= {1, 5}", 1, b"3\n"));
}

#[test]
fn logic_and_existence() {
    assert!(accepts("0 && 1", 2, b"a,b\n"));
    assert!(!accepts("0 && 1", 2, b"a,\"\"\n"));
    assert!(accepts("1 || 0", 2, b"a,\"\"\n"));
    assert!(accepts("not 1", 2, b"a,\"\"\n"));
    assert!(accepts("(0 == a)", 2, b"a,b\n"));
    assert!(accepts("not (0 == b)", 2, b"a,b\n"));
    assert!(accepts("0 == a and 1 == b or 1 == z", 2, b"a,b\n"));
}

#[test]
fn filter_keeps_its_text() {
    let f = Filter::new("0 > 1", 1).expect("compiles");
    assert_eq!(f.text(), "0 > 1");
    assert!(!f.is_empty());
}

#[test]
fn byte_order_and_quotes() {
    assert_eq!(cmp_bytes(b"10", b"2"), Ordering::Less);
    assert_eq!(cmp_bytes(b"ab", b"ab"), Ordering::Equal);
    assert_eq!(cmp_bytes(b"abc", b"ab"), Ordering::Greater);
    assert_eq!(unquote_bytes(b"\"\"x\"\""), b"x");
    assert_eq!(unquote_bytes(b"\"\""), b"");
}

#[test]
fn highlighter_styles() {
    let src = "0 > 12 && 1 ~ \"a\"";
    let mut h = Highlighter::new(src);
    assert_eq!(h.style(0), Style::Id);
    assert_eq!(h.style(1), Style::Plain);
    assert_eq!(h.style(2), Style::Action);
    assert_eq!(h.style(4), Style::Nb);
    assert_eq!(h.style(7), Style::Logi);
    assert_eq!(h.style(10), Style::Id);
    assert_eq!(h.style(12), Style::Action);
    assert_eq!(h.style(15), Style::Regex);
    assert_eq!(h.style(0), Style::Id);
}

#[test]
fn highlighter_tolerates_garbage() {
    let mut h = Highlighter::new("0 > ) ( ]] ~~");
    assert_eq!(h.style(0), Style::Id);
    assert_eq!(h.style(2), Style::Action);
    assert_eq!(h.style(11), Style::Plain);
    assert_eq!(h.style(12), Style::Action);
}

#[test]
fn highlighter_covers_every_byte() {
    let src = "not (0[1:3] matches all{\"a\", b} || 1 >= {2, 3})";
    let mut h = Highlighter::new(src);
    let mut seen_regex = false;
    for pos in 0..src.len() {
        if h.style(pos) == Style::Regex {
            seen_regex = true;
        }
    }
    assert!(seen_regex);
    assert_eq!(h.style(0), Style::Logi);
}

#[test]
fn column_out_of_range_reports_its_span() {
    let e = rejected("1 == a && 7 > 2");
    assert_eq!((e.start, e.end, e.msg), (10, 11, "No column with this index"));
}

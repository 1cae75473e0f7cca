use macvm::frontend::lexer::{int_lit_magnitude, LexError, Lexer, Span, Tok};
use macvm::frontend::CompileError;

fn rest(mut lx: Lexer) -> Result<Vec<Tok>, LexError> {
    let mut out = Vec::new();
    loop {
        let (t, _) = lx.next_token()?;
        if t == Tok::Eof {
            break;
        }
        out.push(t);
    }
    Ok(out)
}

fn lex_all(input: &str) -> Result<Vec<Tok>, LexError> {
    rest(Lexer::new(input))
}

fn num(n: &str, neg: bool) -> Tok {
    radix(10, n, neg)
}

fn radix(radix: u8, n: &str, neg: bool) -> Tok {
    Tok::IntLit { negative: neg, radix, digits: n.to_string() }
}

fn ident(s: &str) -> Tok {
    Tok::Ident(s.to_string())
}

fn binary(s: &str) -> Tok {
    Tok::BinarySel(s.to_string())
}

fn float(t: &Tok) -> f64 {
    match t {
        Tok::FloatLit { negative, text } => {
            let v: f64 = text.parse().unwrap();
            if *negative {
                -v
            } else {
                v
            }
        }
        other => panic!("{other:?}"),
    }
}

fn scaled(int_digits: &str, frac_digits: &str, scale: u16) -> Tok {
    Tok::ScaledLit {
        negative: false,
        int_digits: int_digits.to_string(),
        frac_digits: frac_digits.to_string(),
        scale,
    }
}

#[test]
fn lex_idents_keywords() {
    let toks = lex_all("foo at: x:=").unwrap();
    assert_eq!(toks, vec![ident("foo"), Tok::Keyword("at:".to_string()), ident("x"), Tok::Assign]);
}

#[test]
fn lex_radix() {
    let toks = lex_all("16rFF 2r1010 36rZZ").unwrap();
    assert_eq!(toks, vec![radix(16, "FF", false), radix(2, "1010", false), radix(36, "ZZ", false)]);
    assert_eq!(int_lit_magnitude(16, "FF"), vec![0xFF]);
    assert_eq!(int_lit_magnitude(2, "1010"), vec![0x0A]);
    assert_eq!(int_lit_magnitude(36, "ZZ"), vec![(1295 & 0xFF) as u8, (1295 >> 8) as u8]);
}

#[test]
fn magnitudes() {
    assert_eq!(int_lit_magnitude(10, "0"), Vec::<u8>::new());
    assert_eq!(int_lit_magnitude(10, "000256"), vec![0, 1]);
    assert_eq!(int_lit_magnitude(10, "65536"), vec![0, 0, 1]);
    assert_eq!(int_lit_magnitude(16, "ff"), vec![255]);
}

#[test]
fn lex_radix_bad() {
    let e1 = lex_all("16r").unwrap_err();
    assert_eq!(e1.span, Span { line: 1, col: 1 });
    assert_eq!(e1.msg, "radix literal has no digits after 'r'");
    let e2 = lex_all("8r9").unwrap_err();
    assert_eq!(e2.span, Span { line: 1, col: 1 });
    assert_eq!(e2.msg, "digit '9' is not valid in radix 8");
    assert_eq!(lex_all("37rA").unwrap_err().msg, "radix 37 out of range 2..=36");
    assert_eq!(lex_all("99999999999rA").unwrap_err().msg, "radix 0 out of range 2..=36");
}

#[test]
fn lex_float_forms() {
    let toks = lex_all("3.25 1e10 2.5e-3 1d2").unwrap();
    assert_eq!(toks.len(), 4);
    assert_eq!(float(&toks[0]), 3.25);
    assert_eq!(toks[1], num("10000000000", false));
    assert_eq!(float(&toks[2]), 2.5e-3);
    assert_eq!(float(&toks[3]), 1e2);
    let toks = lex_all("3.14s2 100s2 2.5s").unwrap();
    assert_eq!(toks, vec![scaled("3", "14", 2), scaled("100", "", 2), scaled("2", "5", 1)]);
    let not_scaled = lex_all("5sqrt 100s: 1").unwrap();
    assert_eq!(
        not_scaled,
        vec![
            num("5", false),
            ident("sqrt"),
            num("100", false),
            Tok::Keyword("s:".to_string()),
            num("1", false),
        ]
    );
    let toks2 = lex_all("5.").unwrap();
    assert_eq!(toks2, vec![num("5", false), Tok::Period]);
}

#[test]
fn numbers_at_their_limits() {
    assert_eq!(lex_all("1s70000").unwrap_err().msg, "scaled-decimal scale too large");
    assert_eq!(lex_all("1.5s99999999999").unwrap_err().msg, "scaled-decimal scale too large");
    assert_eq!(lex_all("1e99999999999").unwrap_err().msg, "integer exponent too large");
    assert_eq!(lex_all("1e10001").unwrap_err().msg, "integer exponent too large (limit 10000 digits)");
    assert_eq!(float(&lex_all("-2.5").unwrap()[0]), -2.5);
    assert_eq!(float(&lex_all("2e-2").unwrap()[0]), 0.02);
}

#[test]
fn lex_neg_table() {
    assert_eq!(lex_all("-3").unwrap(), vec![num("3", true)]);
    assert_eq!(lex_all("x - 3").unwrap(), vec![ident("x"), binary("-"), num("3", false)]);
    assert_eq!(lex_all("x-3").unwrap(), vec![ident("x"), binary("-"), num("3", false)]);
    assert_eq!(lex_all("3 - -2").unwrap(), vec![num("3", false), binary("-"), num("2", true)]);
    assert_eq!(lex_all("3--2").unwrap(), vec![num("3", false), binary("-"), num("2", true)]);
    assert_eq!(lex_all("a -2").unwrap(), vec![ident("a"), binary("-"), num("2", false)]);
    assert_eq!(lex_all("(-3)").unwrap(), vec![Tok::LParen, num("3", true), Tok::RParen]);
    assert_eq!(lex_all("[-3]").unwrap(), vec![Tok::LBracket, num("3", true), Tok::RBracket]);
    assert_eq!(lex_all("a --> b").unwrap(), vec![ident("a"), binary("--"), binary(">"), ident("b")]);
}

#[test]
fn lex_neg_in_litarray() {
    let mut lx = Lexer::new("-1 -2");
    lx.set_in_literal_seq(true);
    assert_eq!(rest(lx).unwrap(), vec![num("1", true), num("2", true)]);
}

#[test]
fn lex_char() {
    let toks = lex_all("$a $  $' $\" $$").unwrap();
    assert_eq!(
        toks,
        vec![
            Tok::CharLit('a'),
            Tok::CharLit(' '),
            Tok::CharLit('\''),
            Tok::CharLit('"'),
            Tok::CharLit('$'),
        ]
    );
    let e = lex_all("$").unwrap_err();
    assert!(e.eof);
    assert_eq!(e.msg, "'$' at end of input");
}

#[test]
fn lex_string_quotes() {
    let toks = lex_all("'it''s'").unwrap();
    assert_eq!(toks, vec![Tok::StrLit("it's".to_string())]);
    assert!(lex_all("'unterminated").is_err());
    let e = lex_all("  'unterminated").unwrap_err();
    assert_eq!(e.span, Span { line: 1, col: 3 });
    assert!(e.eof);
}

#[test]
fn lex_comment_quotes() {
    let toks = lex_all("\"a \"\"b\"\" c\" 42").unwrap();
    assert_eq!(toks, vec![num("42", false)]);
    assert!(lex_all("\"unterminated").is_err());
    let e = lex_all("x \"unterminated").unwrap_err();
    assert_eq!(e.msg, "unterminated comment");
    assert_eq!(e.span, Span { line: 1, col: 3 });
    assert!(e.eof);
}

#[test]
fn lex_symbols() {
    let toks = lex_all("#foo #at:put: #+ #>> #'hi there'").unwrap();
    let names = ["foo", "at:put:", "+", ">>", "hi there"];
    assert_eq!(toks, names.iter().map(|s| Tok::SymLit(s.to_string())).collect::<Vec<_>>());
    assert_eq!(
        lex_all("#( #[ #|").unwrap(),
        vec![Tok::LitArrayOpen, Tok::ByteArrayOpen, Tok::SymLit("|".to_string())]
    );
    assert_eq!(lex_all("# x").unwrap_err().msg, "invalid '#' sequence");
    assert_eq!(lex_all("x ` y").unwrap_err().msg, "unexpected character '`'");
}

#[test]
fn lex_binary_two_char() {
    assert_eq!(lex_all("a >= b").unwrap(), vec![ident("a"), binary(">="), ident("b")]);
    assert_eq!(lex_all("a --> b").unwrap(), vec![ident("a"), binary("--"), binary(">"), ident("b")]);
}

#[test]
fn lex_vbar_never_merges() {
    assert_eq!(lex_all("||").unwrap(), vec![Tok::VBar, Tok::VBar]);
}

#[test]
fn lex_pragma_mode_gt_never_merges() {
    let mut lx = Lexer::new(">>= >");
    lx.set_pragma_mode(true);
    assert_eq!(rest(lx).unwrap(), vec![binary(">"), binary(">"), binary("="), binary(">")]);
}

#[test]
fn lex_span_tracks_line_col_bytes() {
    let mut lx = Lexer::new("foo\n  bar");
    let (_, s1) = lx.next_token().unwrap();
    assert_eq!(s1, Span { line: 1, col: 1 });
    let (_, s2) = lx.next_token().unwrap();
    assert_eq!(s2, Span { line: 2, col: 3 });
    let mut lx = Lexer::new("\"ä\" x");
    let (_, s) = lx.next_token().unwrap();
    assert_eq!(s, Span { line: 1, col: 6 });
}

#[test]
fn the_end_stays_the_end() {
    let mut lx = Lexer::new("; ^ { } ");
    for want in [Tok::Semi, Tok::Caret, Tok::LBrace, Tok::RBrace, Tok::Eof, Tok::Eof] {
        assert_eq!(lx.next_token().unwrap().0, want);
    }
}

#[test]
fn errors_are_reported_with_their_place() {
    let e: CompileError = CompileError::from(lex_all("8r9").unwrap_err());
    assert_eq!(e.report(), "<input>:1:1: error: digit '9' is not valid in radix 8");
    assert!(!e.eof);
    let e = e.with_path("a.mst".to_string());
    assert_eq!(e.report(), "a.mst:1:1: error: digit '9' is not valid in radix 8");
}

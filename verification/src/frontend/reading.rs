//! What the lexer reads: each token by the characters that write it.
//!
//! The laws name the characters one by one, and relate a token to the text it was read from.
use vstd::prelude::*;
#[allow(unused_imports)]
use vstd::arithmetic::power::{lemma_pow0, pow};
#[allow(unused_imports)]
use crate::frontend::lexer::{
    bad_digit, belongs, binary, binary_end, char_literal, col_at, digit_at, digit_value, digits_value, doubled, ends_expr, exponent,
    fraction, hash, ident_start, is_at, law_quoted_text_reads_back, lemma_exponent_bounds, lemma_no_bad_digit,
    lemma_number, lemma_quoted_end, lemma_run_end, lemma_scale_bounds, lemma_symbol_end, lemma_trivia, line_at,
    negative_number, next, number, quoted_end, quoted_text, radix_number, radix_of, reads, run_end, scale, span_at,
    string_literal, symbol_end, tok_view, token, trivia, utf8_len, whole, word, CharClass, LexError, Lexer, Scale, Scan,
    Span, Tok, TokV,
};
#[allow(unused_imports)]
use crate::text::{dec_digit, decimal, white};

verus! {

/// A letter of an identifier.
pub open spec fn letter(c: char) -> bool {
    'a' <= c <= 'z' || 'A' <= c <= 'Z' || c == '_'
}

// ── Signs ───────────────────────────────────────────────────────────────

/// Two readings, one after the other, outside a sequence of literals: where the second comes upon a
/// `-` with a digit behind it, that is an operator if the first gave an identifier, a number, a
/// character, a string, a symbol or a closing parenthesis, bracket or brace. After any other token it
/// starts a negative number.
pub proof fn law_minus_after_a_token(
    a: Lexer,
    t: Tok,
    span: Span,
    b: Lexer,
    r: Result<(Tok, Span), LexError>,
    c: Lexer,
    at: int,
)
    requires
        reads(a, Ok((t, span)), b),
        reads(b, r, c),
        !a.among_literals(),
        trivia(b.text(), b.at()) == (None::<int>, at),
        is_at(b.text(), at, '-'),
        digit_at(b.text(), at + 1),
    ensures
        match t {
            Tok::Ident(_) | Tok::IntLit { .. } | Tok::ScaledLit { .. } | Tok::FloatLit { .. } => r matches Ok((o, _)) && (o
                matches Tok::BinarySel(n) && n@ == seq!['-']) && c.at() == at + 1,
            Tok::CharLit(_) | Tok::StrLit(_) | Tok::SymLit(_) => r matches Ok((o, _)) && (o matches Tok::BinarySel(n) && n@
                == seq!['-']) && c.at() == at + 1,
            Tok::RParen | Tok::RBracket | Tok::RBrace => r matches Ok((o, _)) && (o matches Tok::BinarySel(n) && n@
                == seq!['-']) && c.at() == at + 1,
            _ => c.at() > at + 1 && (r matches Ok((o, _)) ==> match o {
                Tok::IntLit { negative, .. } => negative,
                Tok::ScaledLit { negative, .. } => negative,
                Tok::FloatLit { negative, .. } => negative,
                _ => false,
            }),
        },
{
    let s = b.text();
    lemma_number(s, at + 1, true);
    assert(s.subrange(at, at + 1) =~= seq!['-']);
}

/// At the start of a text, and among literals, a `-` with a digit behind it starts a negative number.
pub proof fn law_minus_among_literals(s: Seq<char>, at: int, prev: bool, pragma: bool)
    requires
        is_at(s, at, '-'),
        digit_at(s, at + 1),
    ensures
        token(s, at, prev, pragma, true).end() > at + 1,
        token(s, at, prev, pragma, true) matches Scan::Found(t, _) ==> negative_number(t),
        token(s, at, false, pragma, false) == token(s, at, prev, pragma, true),
{
    lemma_number(s, at + 1, true);
}

// ── Kinds ───────────────────────────────────────────────────────────────

/// The first character decides what a token is.
pub proof fn law_first_character(s: Seq<char>, i: int, prev: bool, pragma: bool, lits: bool)
    requires
        0 <= i < s.len(),
    ensures
        ({
            let c = s[i];
            let r = token(s, i, prev, pragma, lits);
            let more = i + 1 < s.len();
            let n = s[i + 1];
            &&& letter(c) ==> (r matches Scan::Found(t, _) && (t is Ident || t is Keyword))
            &&& '0' <= c <= '9' ==> (r matches Scan::Found(t, _) ==> (t is IntLit || t is ScaledLit || t is FloatLit)
                && !negative_number(t))
            &&& c == '(' ==> r == Scan::Found(TokV::LParen, i + 1)
            &&& c == ')' ==> r == Scan::Found(TokV::RParen, i + 1)
            &&& c == '[' ==> r == Scan::Found(TokV::LBracket, i + 1)
            &&& c == ']' ==> r == Scan::Found(TokV::RBracket, i + 1)
            &&& c == '{' ==> r == Scan::Found(TokV::LBrace, i + 1)
            &&& c == '}' ==> r == Scan::Found(TokV::RBrace, i + 1)
            &&& c == '|' ==> r == Scan::Found(TokV::VBar, i + 1)
            &&& c == ';' ==> r == Scan::Found(TokV::Semi, i + 1)
            &&& c == '.' ==> r == Scan::Found(TokV::Period, i + 1)
            &&& c == '^' ==> r == Scan::Found(TokV::Caret, i + 1)
            &&& c == ':' && more && n == '=' ==> r == Scan::Found(TokV::Assign, i + 2)
            &&& c == ':' && !(more && n == '=') ==> r == Scan::Found(TokV::Colon, i + 1)
            &&& c == '$' && more ==> r == Scan::Found(TokV::CharLit(n), i + 2)
            &&& c == '$' && !more ==> (r matches Scan::Failed(_, eof, _) && eof)
            &&& c == '#' && more && n == '(' ==> r == Scan::Found(TokV::LitArrayOpen, i + 2)
            &&& c == '#' && more && n == '[' ==> r == Scan::Found(TokV::ByteArrayOpen, i + 2)
            &&& c == '+' || c == '*' || c == '/' || c == '\\' || c == '~' || c == '<' || c == '>' || c == '=' || c == '&'
                || c == '@' || c == '%' || c == ',' || c == '?' || c == '!' ==> (r matches Scan::Found(t, _) && t
                is BinarySel)
            &&& c == '-' && !(more && '0' <= n <= '9') ==> (r matches Scan::Found(t, _) && t is BinarySel)
            &&& !(letter(c) || '0' <= c <= '9' || c == '(' || c == ')' || c == '[' || c == ']' || c == '{' || c == '}'
                || c == '|' || c == ';' || c == '.' || c == '^' || c == ':' || c == '$' || c == '#' || c == '\'' || c
                == '+' || c == '*' || c == '/' || c == '\\' || c == '~' || c == '<' || c == '>' || c == '=' || c == '&'
                || c == '@' || c == '%' || c == ',' || c == '?' || c == '!' || c == '-') ==> (r matches Scan::Failed(
                m,
                eof,
                _,
            ) && !eof && m == "unexpected character '"@ + seq![c] + "'"@)
        }),
{
    reveal_strlit("|");
    if dec_digit(s[i]) {
        lemma_number(s, i, false);
    }
}

/// The end of the text is the last token, for good.
pub proof fn law_end_of_text(s: Seq<char>, prev: bool, pragma: bool, lits: bool)
    ensures
        next(s, s.len() as int, prev, pragma, lits) == (s.len() as int, Scan::Found(TokV::Eof, s.len() as int)),
{
}

// ── Words ───────────────────────────────────────────────────────────────

/// A word is all the letters, digits and underscores that run together, from a letter on. With a
/// colon behind it that does not belong to an assignment it is a keyword, and the colon is part of it.
pub proof fn law_words(s: Seq<char>, i: int, e: int, prev: bool, pragma: bool, lits: bool)
    requires
        0 <= i < e <= s.len(),
        letter(s[i]),
        forall|k: int| i <= k < e ==> letter(#[trigger] s[k]) || '0' <= s[k] <= '9',
        e < s.len() ==> !letter(s[e]) && !('0' <= s[e] <= '9'),
    ensures
        ({
            let r = token(s, i, prev, pragma, lits);
            let keyword = e < s.len() && s[e] == ':' && !(e + 1 < s.len() && s[e + 1] == '=');
            &&& keyword ==> r == Scan::Found(TokV::Keyword(s.subrange(i, e + 1)), e + 1)
            &&& !keyword ==> r == Scan::Found(TokV::Ident(s.subrange(i, e)), e)
        }),
{
    lemma_run_is(s, i, e, CharClass::Ident);
}

/// A run is what lies before the first character of another class.
proof fn lemma_run_is(s: Seq<char>, i: int, e: int, class: CharClass)
    requires
        0 <= i <= e <= s.len(),
        forall|k: int| i <= k < e ==> belongs(#[trigger] s[k], class),
        e < s.len() ==> !belongs(s[e], class),
    ensures
        run_end(s, i, class) == e,
    decreases e - i,
{
    if i < e {
        lemma_run_is(s, i + 1, e, class);
    }
}

/// A binary selector is one character, or two where another of its characters follows. A bar never
/// follows, nor a `-` that a digit follows, nor anything a `>` in a pragma.
pub proof fn law_binary_selectors(s: Seq<char>, i: int, prev: bool, pragma: bool, lits: bool)
    requires
        0 <= i < s.len(),
        token(s, i, prev, pragma, lits) matches Scan::Found(t, _) && t is BinarySel,
    ensures
        ({
            let two = {
                &&& i + 1 < s.len()
                &&& !(pragma && s[i] == '>')
                &&& ({
                    let n = s[i + 1];
                    ||| n == '+' || n == '*' || n == '/' || n == '\\' || n == '~' || n == '<' || n == '>' || n == '='
                        || n == '&' || n == '@' || n == '%' || n == ',' || n == '?' || n == '!'
                    ||| n == '-' && !(i + 2 < s.len() && '0' <= s[i + 2] <= '9')
                })
            };
            let e = if two {
                i + 2
            } else {
                i + 1
            };
            token(s, i, prev, pragma, lits) == Scan::Found(TokV::BinarySel(s.subrange(i, e)), e)
        }),
{
    if dec_digit(s[i]) {
        lemma_number(s, i, false);
    }
    if digit_at(s, i + 1) {
        lemma_number(s, i + 1, true);
    }
}

// ── Quoted text, characters and symbols ─────────────────────────────────

/// A string is read as what stands between its quotes, a quote of its own written twice. So is a
/// symbol, behind a `#`.
pub proof fn law_quoted_literals(s: Seq<char>, i: int, t: Seq<char>, prev: bool, pragma: bool, lits: bool)
    requires
        0 <= i,
        i + 1 + doubled(t, '\'').len() < s.len(),
        s[i] == '\'',
        s.subrange(i + 1, i + 1 + doubled(t, '\'').len()) == doubled(t, '\''),
        s[i + 1 + doubled(t, '\'').len()] == '\'',
        !is_at(s, i + 2 + doubled(t, '\'').len(), '\''),
    ensures
        token(s, i, prev, pragma, lits) == Scan::Found(TokV::StrLit(t), i + 2 + doubled(t, '\'').len()),
        is_at(s, i - 1, '#') ==> token(s, i - 1, prev, pragma, lits) == Scan::Found(
            TokV::SymLit(t),
            i + 2 + doubled(t, '\'').len(),
        ),
{
    law_quoted_text_reads_back(s, i + 1, t, '\'');
}

/// A comment is passed over: what is read is what is read behind it.
pub proof fn law_comments_are_skipped(s: Seq<char>, i: int, t: Seq<char>)
    requires
        0 <= i,
        i + 1 + doubled(t, '"').len() < s.len(),
        s[i] == '"',
        s.subrange(i + 1, i + 1 + doubled(t, '"').len()) == doubled(t, '"'),
        s[i + 1 + doubled(t, '"').len()] == '"',
        !is_at(s, i + 2 + doubled(t, '"').len(), '"'),
    ensures
        trivia(s, i) == trivia(s, i + 2 + doubled(t, '"').len()),
{
    law_quoted_text_reads_back(s, i + 1, t, '"');
}

/// White space is passed over, and nothing else but comments is.
pub proof fn law_white_space_is_skipped(s: Seq<char>, i: int)
    requires
        0 <= i < s.len(),
    ensures
        ({
            let c = s[i];
            let n = c as u32;
            let blank = n == 32 || n == 9 || n == 10 || n == 13 || n == 11 || n == 12 || n == 0x85 || n == 0xA0 || n == 0x1680
                || (0x2000 <= n <= 0x200A) || n == 0x2028 || n == 0x2029 || n == 0x202F || n == 0x205F || n == 0x3000;
            &&& blank ==> trivia(s, i) == trivia(s, i + 1)
            &&& !blank && c != '"' ==> trivia(s, i) == (None::<int>, i)
        }),
{
}

/// A quote that no quote ends is reported at its place, as a text that ended too early.
pub proof fn law_open_quotes_are_reported(s: Seq<char>, i: int, prev: bool, pragma: bool, lits: bool)
    requires
        0 <= i < s.len(),
        forall|k: int| i < k < s.len() ==> #[trigger] s[k] != s[i],
    ensures
        s[i] == '\'' ==> token(s, i, prev, pragma, lits) == Scan::Failed("unterminated string"@, true, s.len() as int),
        s[i] == '"' ==> next(s, i, prev, pragma, lits) == (
            i,
            Scan::Failed("unterminated comment"@, true, s.len() as int),
        ),
{
    lemma_never_ends(s, i + 1, s[i]);
}

proof fn lemma_never_ends(s: Seq<char>, i: int, q: char)
    requires
        0 <= i <= s.len(),
        forall|k: int| i <= k < s.len() ==> #[trigger] s[k] != q,
    ensures
        quoted_end(s, i, q) is None,
    decreases s.len() - i,
{
    if i < s.len() {
        lemma_never_ends(s, i + 1, q);
    }
}

/// A symbol of words takes the words and the colons that run together; of any other characters it
/// takes what a binary selector takes.
pub proof fn law_symbols(s: Seq<char>, i: int, prev: bool, pragma: bool, lits: bool)
    requires
        is_at(s, i, '#'),
        i + 1 < s.len(),
    ensures
        ({
            let r = token(s, i, prev, pragma, lits);
            let n = s[i + 1];
            &&& letter(n) ==> (r matches Scan::Found(t, e) && i + 1 < e <= s.len() && t == TokV::SymLit(
                s.subrange(i + 1, e),
            ) && (forall|k: int| i < k < e ==> letter(#[trigger] s[k]) || '0' <= s[k] <= '9' || s[k] == ':') && (e
                < s.len() ==> !letter(s[e]) && (s[e] == ':' ==> s[e - 1] == ':') && ('0' <= s[e] <= '9' ==> s[e - 1] == ':')))
            &&& n == '|' ==> r == Scan::Found(TokV::SymLit(seq!['|']), i + 2)
            &&& n == '+' || n == '-' || n == '*' || n == '/' || n == '\\' || n == '~' || n == '<' || n == '>' || n == '='
                || n == '&' || n == '@' || n == '%' || n == ',' || n == '?' || n == '!' ==> (r matches Scan::Found(t, e)
                && t == TokV::SymLit(s.subrange(i + 1, e)) && (e == i + 2 || e == i + 3))
        }),
{
    reveal_strlit("|");
    assert("|"@ =~= seq!['|']);
    if letter(s[i + 1]) {
        lemma_symbol(s, i + 1);
        lemma_symbol_end(s, i + 1);
    }
}

proof fn lemma_symbol(s: Seq<char>, i: int)
    requires
        0 <= i < s.len(),
        ident_start(s[i]),
    ensures
        ({
            let e = symbol_end(s, i);
            &&& i < e <= s.len()
            &&& forall|k: int| i <= k < e ==> letter(#[trigger] s[k]) || '0' <= s[k] <= '9' || s[k] == ':'
            &&& e < s.len() ==> !letter(s[e]) && (s[e] == ':' ==> s[e - 1] == ':') && ('0' <= s[e] <= '9' ==> s[e - 1]
                == ':')
        }),
    decreases s.len() - i,
{
    lemma_run_end(s, i, CharClass::Ident);
    lemma_run_end(s, i + 1, CharClass::Ident);
    let f = run_end(s, i, CharClass::Ident);
    assert(f > i);
    if is_at(s, f, ':') {
        if f + 1 < s.len() && ident_start(s[f + 1]) {
            lemma_symbol(s, f + 1);
            let e = symbol_end(s, i);
            assert forall|k: int| i <= k < e implies letter(#[trigger] s[k]) || '0' <= s[k] <= '9' || s[k] == ':' by {
                if k < f {
                    assert(belongs(s[k], CharClass::Ident));
                }
            }
        } else {
            assert forall|k: int| i <= k < f + 1 implies letter(#[trigger] s[k]) || '0' <= s[k] <= '9' || s[k] == ':' by {
                if k < f {
                    assert(belongs(s[k], CharClass::Ident));
                }
            }
        }
    } else {
        assert forall|k: int| i <= k < f implies letter(#[trigger] s[k]) || '0' <= s[k] <= '9' || s[k] == ':' by {
            assert(belongs(s[k], CharClass::Ident));
        }
    }
}

// ── Numbers ─────────────────────────────────────────────────────────────

/// A sign changes nothing of a number but that: where it ends and what it writes is the same.
pub proof fn law_signs_of_numbers(s: Seq<char>, i: int, prev: bool, pragma: bool)
    requires
        is_at(s, i - 1, '-'),
        digit_at(s, i),
    ensures
        match (token(s, i, prev, pragma, false), token(s, i - 1, false, pragma, false)) {
            (Scan::Found(a, e), Scan::Found(b, f)) => e == f && match (a, b) {
                (TokV::IntLit(m, r, d), TokV::IntLit(n, q, c)) => !m && n && r == q && d == c,
                (TokV::ScaledLit(m, x, y, z), TokV::ScaledLit(n, u, v, w)) => !m && n && x == u && y == v && z == w,
                (TokV::FloatLit(m, x), TokV::FloatLit(n, y)) => !m && n && x == y,
                _ => false,
            },
            (Scan::Failed(x, u, e), Scan::Failed(y, v, f)) => x == y && u == v && e == f,
            _ => false,
        },
{
}

/// Digits that nothing of a number follows are a decimal integer: all that run together.
pub proof fn law_decimal_integers(s: Seq<char>, i: int, e: int, prev: bool, pragma: bool, lits: bool)
    requires
        0 <= i < e <= s.len(),
        forall|k: int| i <= k < e ==> '0' <= #[trigger] s[k] <= '9',
        e < s.len() ==> !('0' <= s[e] <= '9') && s[e] != 'r' && s[e] != 's' && s[e] != 'e' && s[e] != 'E' && s[e] != 'd'
            && s[e] != 'D' && !(s[e] == '.' && e + 1 < s.len() && '0' <= s[e + 1] <= '9'),
    ensures
        token(s, i, prev, pragma, lits) == Scan::Found(TokV::IntLit(false, 10, s.subrange(i, e)), e),
{
    lemma_run_is(s, i, e, CharClass::Digit);
}

/// An integer in a radix: the radix is what the digits before the `r` write, and must be from 2 to 36;
/// the digits behind it, all that run together, must each be of less than the radix.
pub proof fn law_radix_integers(s: Seq<char>, i: int, e: int, f: int, prev: bool, pragma: bool, lits: bool)
    requires
        0 <= i < e < s.len(),
        e + 1 <= f <= s.len(),
        forall|k: int| i <= k < e ==> '0' <= #[trigger] s[k] <= '9',
        s[e] == 'r',
        forall|k: int| e < k < f ==> '0' <= #[trigger] s[k] <= '9' || 'A' <= s[k] <= 'Z',
        f < s.len() ==> !('0' <= s[f] <= '9') && !('A' <= s[f] <= 'Z'),
    ensures
        ({
            let radix = decimal(s.subrange(i, e));
            let of = |c: char|
                if '0' <= c <= '9' {
                    c as int - '0' as int
                } else {
                    c as int - 'A' as int + 10
                };
            let fine = 2 <= radix <= 36 && f > e + 1 && forall|k: int| e < k < f ==> of(#[trigger] s[k]) < radix;
            let r = token(s, i, prev, pragma, lits);
            &&& fine ==> r == Scan::Found(TokV::IntLit(false, radix as u8, s.subrange(e + 1, f)), f)
            &&& !fine ==> (r matches Scan::Failed(_, eof, _) && !eof)
        }),
{
    lemma_run_is(s, i, e, CharClass::Digit);
    lemma_run_is(s, e + 1, f, CharClass::RadixDigit);
    let radix = radix_of(s.subrange(i, e));
    if 2 <= radix <= 36 {
        lemma_bad_digit(s, e + 1, f, radix);
    }
}

proof fn lemma_bad_digit(s: Seq<char>, a: int, b: int, radix: u32)
    requires
        0 <= a <= b <= s.len(),
    ensures
        bad_digit(s, a, b, radix) is None <==> forall|k: int|
            a <= k < b ==> (digit_value(#[trigger] s[k]) matches Some(v) && v < radix),
    decreases b - a,
{
    if a < b {
        lemma_bad_digit(s, a + 1, b, radix);
    }
}

/// An exponent behind digits: as many zeros as it says are put behind them. One of more than 10000 is
/// refused.
pub proof fn law_integer_exponents(s: Seq<char>, i: int, e: int, f: int, prev: bool, pragma: bool, lits: bool)
    requires
        0 <= i < e < s.len(),
        e + 1 < f <= s.len(),
        forall|k: int| i <= k < e ==> '0' <= #[trigger] s[k] <= '9',
        s[e] == 'e' || s[e] == 'E',
        forall|k: int| e < k < f ==> '0' <= #[trigger] s[k] <= '9',
        f < s.len() ==> !('0' <= s[f] <= '9'),
    ensures
        ({
            let n = decimal(s.subrange(e + 1, f));
            let r = token(s, i, prev, pragma, lits);
            &&& n <= 10000 ==> (r matches Scan::Found(t, end) && end == f && (t matches TokV::IntLit(negative, radix, digits)
                && !negative && radix == 10 && digits.len() == (e - i) + n && (forall|k: int|
                0 <= k < e - i ==> #[trigger] digits[k] == s[i + k]) && (forall|k: int|
                e - i <= k < digits.len() ==> #[trigger] digits[k] == '0')))
            &&& n > 10000 ==> (r matches Scan::Failed(_, eof, _) && !eof)
        }),
{
    lemma_run_is(s, i, e, CharClass::Digit);
    lemma_run_is(s, e + 1, f, CharClass::Digit);
    assert(belongs(s[e + 1], CharClass::Digit));
}

/// A fraction behind digits, without a scale or an exponent, makes a float of the text as it is written.
pub proof fn law_fractions(s: Seq<char>, i: int, e: int, f: int, prev: bool, pragma: bool, lits: bool)
    requires
        0 <= i < e < s.len(),
        e + 1 < f <= s.len(),
        forall|k: int| i <= k < e ==> '0' <= #[trigger] s[k] <= '9',
        s[e] == '.',
        forall|k: int| e < k < f ==> '0' <= #[trigger] s[k] <= '9',
        f < s.len() ==> !('0' <= s[f] <= '9') && s[f] != 's' && s[f] != 'e' && s[f] != 'E' && s[f] != 'd' && s[f] != 'D',
    ensures
        token(s, i, prev, pragma, lits) == Scan::Found(TokV::FloatLit(false, s.subrange(i, f)), f),
{
    lemma_run_is(s, i, e, CharClass::Digit);
    lemma_run_is(s, e + 1, f, CharClass::Digit);
    assert(belongs(s[e + 1], CharClass::Digit));
}

/// With an exponent behind it, of `e` or `d`, the float's text has the exponent behind an `e`.
pub proof fn law_float_exponents(s: Seq<char>, i: int, e: int, f: int, g: int, neg: bool, prev: bool, pragma: bool, lits: bool)
    requires
        0 <= i < e < s.len(),
        e + 1 < f < s.len(),
        forall|k: int| i <= k < e ==> '0' <= #[trigger] s[k] <= '9',
        s[e] == '.',
        forall|k: int| e < k < f ==> '0' <= #[trigger] s[k] <= '9',
        s[f] == 'e' || s[f] == 'E' || s[f] == 'd' || s[f] == 'D',
        neg == (f + 1 < s.len() && s[f + 1] == '-'),
        f + 1 + (if neg {
            1int
        } else {
            0
        }) < g <= s.len(),
        forall|k: int|
            f + 1 + (if neg {
                1int
            } else {
                0
            }) <= k < g ==> '0' <= #[trigger] s[k] <= '9',
        g < s.len() ==> !('0' <= s[g] <= '9'),
    ensures
        ({
            let d = if neg {
                f + 2
            } else {
                f + 1
            };
            let r = token(s, i, prev, pragma, lits);
            r matches Scan::Found(t, end) && end == g && (t matches TokV::FloatLit(negative, text) && !negative && text
                == s.subrange(i, f) + (if neg {
                seq!['e', '-']
            } else {
                seq!['e']
            }) + s.subrange(d, g))
        }),
{
    reveal_strlit("e");
    reveal_strlit("-");
    reveal_strlit("");
    lemma_run_is(s, i, e, CharClass::Digit);
    lemma_run_is(s, e + 1, f, CharClass::Digit);
    assert(belongs(s[e + 1], CharClass::Digit));
    let d = if neg {
        f + 2
    } else {
        f + 1
    };
    lemma_run_is(s, d, g, CharClass::Digit);
    assert(belongs(s[d], CharClass::Digit));
    assert(s.subrange(i, f) + "e"@ + (if neg {
        "-"@
    } else {
        ""@
    }) + s.subrange(d, g) =~= s.subrange(i, f) + (if neg {
        seq!['e', '-']
    } else {
        seq!['e']
    }) + s.subrange(d, g));
}

/// A scaled decimal: digits, perhaps a fraction, and an `s` with the number of places behind it. Without
/// one the fraction's length counts. An `s` that a word goes on with is none.
pub proof fn law_scaled_decimals(s: Seq<char>, i: int, e: int, f: int, g: int, prev: bool, pragma: bool, lits: bool)
    requires
        0 <= i < e <= f < s.len(),
        forall|k: int| i <= k < e ==> '0' <= #[trigger] s[k] <= '9',
        e == f || (e + 1 < f && s[e] == '.'),
        forall|k: int| e < k < f ==> '0' <= #[trigger] s[k] <= '9',
        s[f] == 's',
        f < g <= s.len(),
        forall|k: int| f < k < g ==> '0' <= #[trigger] s[k] <= '9',
        g < s.len() ==> !('0' <= s[g] <= '9'),
        f - e <= 65535,
        g == f + 1 && g < s.len() ==> !letter(s[g]) && s[g] != ':',
    ensures
        ({
            let places = if e == f {
                Seq::<char>::empty()
            } else {
                s.subrange(e + 1, f)
            };
            let n = if g == f + 1 {
                places.len()
            } else {
                decimal(s.subrange(f + 1, g))
            };
            let r = token(s, i, prev, pragma, lits);
            &&& n <= 65535 ==> r == Scan::Found(TokV::ScaledLit(false, s.subrange(i, e), places, n as u16), g)
            &&& n > 65535 ==> (r matches Scan::Failed(_, eof, _) && !eof)
        }),
{
    lemma_run_is(s, i, e, CharClass::Digit);
    if e < f {
        lemma_run_is(s, e + 1, f, CharClass::Digit);
        assert(belongs(s[e + 1], CharClass::Digit));
    }
    lemma_run_is(s, f + 1, g, CharClass::Digit);
    if g > f + 1 {
        assert(belongs(s[f + 1], CharClass::Digit));
    }
}

/// Digits behind digits: the number that both write together is that of the first, moved up by as many
/// places as the second has, and that of the second. A digit alone writes its value.
pub proof fn law_digits_have_places(radix: nat, a: Seq<char>, b: Seq<char>)
    ensures
        digits_value(radix, a + b) == digits_value(radix, a) * pow(radix as int, b.len()) + digits_value(radix, b),
        forall|c: char|
            #![trigger digit_value(c)]
            {
                &&& '0' <= c <= '9' ==> digits_value(radix, seq![c]) == c as int - '0' as int
                &&& 'A' <= c <= 'Z' ==> digits_value(radix, seq![c]) == c as int - 'A' as int + 10
                &&& 'a' <= c <= 'z' ==> digits_value(radix, seq![c]) == c as int - 'a' as int + 10
            },
    decreases b.len(),
{
    assert forall|c: char|
        #![trigger digit_value(c)]
        {
            &&& '0' <= c <= '9' ==> digits_value(radix, seq![c]) == c as int - '0' as int
            &&& 'A' <= c <= 'Z' ==> digits_value(radix, seq![c]) == c as int - 'A' as int + 10
            &&& 'a' <= c <= 'z' ==> digits_value(radix, seq![c]) == c as int - 'a' as int + 10
        } by {
        assert(seq![c].drop_last() =~= Seq::<char>::empty());
        assert(digits_value(radix, Seq::<char>::empty()) == 0);
        assert(radix * 0 == 0) by (nonlinear_arith);
    }
    if b.len() == 0 {
        assert(a + b =~= a);
        lemma_pow0(radix as int);
    } else {
        law_digits_have_places(radix, a, b.drop_last());
        assert((a + b).drop_last() =~= a + b.drop_last());
        let n = (b.len() - 1) as nat;
        lemma_pow1_step(radix as int, n);
        let x = digits_value(radix, a) as int;
        let y = digits_value(radix, b.drop_last()) as int;
        let p = pow(radix as int, n);
        assert(radix * (x * p + y) == x * (radix * p) + radix * y) by (nonlinear_arith);
    }
}

proof fn lemma_pow1_step(r: int, n: nat)
    ensures
        pow(r, n + 1) == r * pow(r, n),
{
    reveal(pow);
}

// ── Places ──────────────────────────────────────────────────────────────

/// A place is told by its line, one more than the line ends before it, and its column, one more than
/// the bytes since the last of them. A character takes one byte below 128, two below 2048, three
/// below 65536, and four from there on.
pub proof fn law_places(s: Seq<char>, from: int, to: int)
    requires
        0 <= from <= to <= s.len(),
        forall|k: int| from <= k < to ==> #[trigger] s[k] != '\n',
        from == 0 || s[from - 1] == '\n',
    ensures
        line_at(s, to) == line_at(s, from),
        from > 0 ==> line_at(s, from) == line_at(s, from - 1) + 1,
        line_at(s, 0) == 1,
        col_at(s, from) == 1,
        to > from ==> col_at(s, to) == col_at(s, to - 1) + (if (s[to - 1] as u32) < 128 {
            1nat
        } else if (s[to - 1] as u32) < 2048 {
            2
        } else if (s[to - 1] as u32) < 65536 {
            3
        } else {
            4
        }),
    decreases to - from,
{
    if from < to {
        law_places(s, from, to - 1);
    }
}

} // verus!

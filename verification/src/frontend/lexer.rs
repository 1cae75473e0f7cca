//! Tokens.
//!
//! The contracts speak of the characters of the input and of places among them; a place's line and
//! column follow from it. Columns count bytes.
use vstd::prelude::*;
use crate::text::{chars_of, is_white, push_dec};
#[allow(unused_imports)]
use crate::text::{all_digits, dec_digit, dec_text, decimal, lemma_decimal_grows, white};

verus! {

/// A place in the source. Lines count from one, columns from one.
#[derive(Clone, Copy, Debug, PartialEq, Eq, Structural)]
pub struct Span {
    pub line: u32,
    pub col: u32,
}

/// A token.
#[derive(Clone, Debug, PartialEq)]
pub enum Tok {
    Ident(String),
    Keyword(String),
    BinarySel(String),
    /// Digits as written, without a sign.
    IntLit { negative: bool, radix: u8, digits: String },
    /// An exact decimal with the number of places to show.
    ScaledLit { negative: bool, int_digits: String, frac_digits: String, scale: u16 },
    /// The magnitude's text, in the form `digits[.digits][e[-]digits]`.
    FloatLit { negative: bool, text: String },
    CharLit(char),
    StrLit(String),
    SymLit(String),
    LitArrayOpen,
    ByteArrayOpen,
    LParen,
    RParen,
    LBracket,
    RBracket,
    LBrace,
    RBrace,
    VBar,
    Semi,
    Period,
    Caret,
    Assign,
    Colon,
    Eof,
}

/// A malformed token.
#[derive(Clone, Debug)]
pub struct LexError {
    pub span: Span,
    pub msg: String,
    /// The input ended too early.
    pub eof: bool,
}

/// A token, as the contracts see it.
pub enum TokV {
    Ident(Seq<char>),
    Keyword(Seq<char>),
    BinarySel(Seq<char>),
    IntLit(bool, u8, Seq<char>),
    ScaledLit(bool, Seq<char>, Seq<char>, u16),
    FloatLit(bool, Seq<char>),
    CharLit(char),
    StrLit(Seq<char>),
    SymLit(Seq<char>),
    LitArrayOpen,
    ByteArrayOpen,
    LParen,
    RParen,
    LBracket,
    RBracket,
    LBrace,
    RBrace,
    VBar,
    Semi,
    Period,
    Caret,
    Assign,
    Colon,
    Eof,
}

pub open spec fn tok_view(t: Tok) -> TokV {
    match t {
        Tok::Ident(s) => TokV::Ident(s@),
        Tok::Keyword(s) => TokV::Keyword(s@),
        Tok::BinarySel(s) => TokV::BinarySel(s@),
        Tok::IntLit { negative, radix, digits } => TokV::IntLit(negative, radix, digits@),
        Tok::ScaledLit { negative, int_digits, frac_digits, scale } => TokV::ScaledLit(
            negative,
            int_digits@,
            frac_digits@,
            scale,
        ),
        Tok::FloatLit { negative, text } => TokV::FloatLit(negative, text@),
        Tok::CharLit(c) => TokV::CharLit(c),
        Tok::StrLit(s) => TokV::StrLit(s@),
        Tok::SymLit(s) => TokV::SymLit(s@),
        Tok::LitArrayOpen => TokV::LitArrayOpen,
        Tok::ByteArrayOpen => TokV::ByteArrayOpen,
        Tok::LParen => TokV::LParen,
        Tok::RParen => TokV::RParen,
        Tok::LBracket => TokV::LBracket,
        Tok::RBracket => TokV::RBracket,
        Tok::LBrace => TokV::LBrace,
        Tok::RBrace => TokV::RBrace,
        Tok::VBar => TokV::VBar,
        Tok::Semi => TokV::Semi,
        Tok::Period => TokV::Period,
        Tok::Caret => TokV::Caret,
        Tok::Assign => TokV::Assign,
        Tok::Colon => TokV::Colon,
        Tok::Eof => TokV::Eof,
    }
}

/// Whether an expression can end with a token, so that a `-` after it is an operator.
pub open spec fn ends_expr(t: TokV) -> bool {
    match t {
        TokV::Ident(_)
        | TokV::IntLit(..)
        | TokV::ScaledLit(..)
        | TokV::FloatLit(..)
        | TokV::CharLit(_)
        | TokV::StrLit(_)
        | TokV::SymLit(_)
        | TokV::RParen
        | TokV::RBracket
        | TokV::RBrace => true,
        _ => false,
    }
}

fn tok_ends_expr(t: &Tok) -> (r: bool)
    ensures
        r == ends_expr(tok_view(*t)),
{
    match t {
        Tok::Ident(_)
        | Tok::IntLit { .. }
        | Tok::ScaledLit { .. }
        | Tok::FloatLit { .. }
        | Tok::CharLit(_)
        | Tok::StrLit(_)
        | Tok::SymLit(_)
        | Tok::RParen
        | Tok::RBracket
        | Tok::RBrace => true,
        _ => false,
    }
}

// ── Characters ──────────────────────────────────────────────────────────

/// The bytes that a character takes.
pub open spec fn utf8_len(c: char) -> nat {
    if c as u32 <= 0x7F {
        1
    } else if c as u32 <= 0x7FF {
        2
    } else if c as u32 <= 0xFFFF {
        3
    } else {
        4
    }
}

fn utf8_width(c: char) -> (n: u32)
    ensures
        n == utf8_len(c),
{
    let v: u32 = c as u32;
    if v <= 0x7F {
        1
    } else if v <= 0x7FF {
        2
    } else if v <= 0xFFFF {
        3
    } else {
        4
    }
}

/// The characters of binary selectors.
pub open spec fn binary(c: char) -> bool {
    c == '+' || c == '-' || c == '*' || c == '/' || c == '\\' || c == '~' || c == '<' || c == '>' || c == '=' || c == '&'
        || c == '|' || c == '@' || c == '%' || c == ',' || c == '?' || c == '!'
}

fn is_binary_char(c: char) -> (r: bool)
    ensures
        r == binary(c),
{
    c == '+' || c == '-' || c == '*' || c == '/' || c == '\\' || c == '~' || c == '<' || c == '>' || c == '=' || c == '&'
        || c == '|' || c == '@' || c == '%' || c == ',' || c == '?' || c == '!'
}

pub open spec fn ident_start(c: char) -> bool {
    'a' <= c <= 'z' || 'A' <= c <= 'Z' || c == '_'
}

fn is_ident_start(c: char) -> (r: bool)
    ensures
        r == ident_start(c),
{
    ('a' <= c && c <= 'z') || ('A' <= c && c <= 'Z') || c == '_'
}

/// The classes of characters that run together.
#[derive(Clone, Copy, Debug, PartialEq, Eq, Structural)]
pub enum CharClass {
    Digit,
    /// What an identifier goes on with.
    Ident,
    /// Digits and upper-case letters.
    RadixDigit,
}

pub open spec fn belongs(c: char, class: CharClass) -> bool {
    match class {
        CharClass::Digit => dec_digit(c),
        CharClass::Ident => ident_start(c) || dec_digit(c),
        CharClass::RadixDigit => dec_digit(c) || 'A' <= c <= 'Z',
    }
}

fn is_in(c: char, class: CharClass) -> (r: bool)
    ensures
        r == belongs(c, class),
{
    let digit: bool = '0' <= c && c <= '9';
    match class {
        CharClass::Digit => digit,
        CharClass::Ident => digit || is_ident_start(c),
        CharClass::RadixDigit => digit || ('A' <= c && c <= 'Z'),
    }
}

/// A digit's value in a radix of up to 36.
pub open spec fn digit_value(c: char) -> Option<u32> {
    if '0' <= c <= '9' {
        Some((c as u32 - '0' as u32) as u32)
    } else if 'A' <= c <= 'Z' {
        Some((c as u32 - 'A' as u32 + 10) as u32)
    } else if 'a' <= c <= 'z' {
        Some((c as u32 - 'a' as u32 + 10) as u32)
    } else {
        None
    }
}

fn value_of_digit(c: char) -> (r: Option<u32>)
    ensures
        r == digit_value(c),
{
    let v: u32 = c as u32;
    if '0' <= c && c <= '9' {
        Some(v - 48)
    } else if 'A' <= c && c <= 'Z' {
        Some(v - 65 + 10)
    } else if 'a' <= c && c <= 'z' {
        Some(v - 97 + 10)
    } else {
        None
    }
}

// ── Places ──────────────────────────────────────────────────────────────

/// Whether a character stands at a place.
pub open spec fn is_at(s: Seq<char>, i: int, c: char) -> bool {
    0 <= i < s.len() && s[i] == c
}

pub open spec fn digit_at(s: Seq<char>, i: int) -> bool {
    0 <= i < s.len() && dec_digit(s[i])
}

/// The bytes before a place.
pub open spec fn bytes_to(s: Seq<char>, i: int) -> nat
    decreases i,
{
    if i <= 0 || i > s.len() {
        0
    } else {
        bytes_to(s, i - 1) + utf8_len(s[i - 1])
    }
}

pub open spec fn line_at(s: Seq<char>, i: int) -> nat
    decreases i,
{
    if i <= 0 || i > s.len() {
        1
    } else if s[i - 1] == '\n' {
        line_at(s, i - 1) + 1
    } else {
        line_at(s, i - 1)
    }
}

pub open spec fn col_at(s: Seq<char>, i: int) -> nat
    decreases i,
{
    if i <= 0 || i > s.len() || s[i - 1] == '\n' {
        1
    } else {
        col_at(s, i - 1) + utf8_len(s[i - 1])
    }
}

/// The line and column of a place.
pub open spec fn span_at(s: Seq<char>, i: int) -> Span {
    Span { line: line_at(s, i) as u32, col: col_at(s, i) as u32 }
}

/// Neither a line nor a column of the text exceeds the machine's numbers.
pub open spec fn fits(s: Seq<char>) -> bool {
    bytes_to(s, s.len() as int) < u32::MAX
}

proof fn lemma_places(s: Seq<char>, i: int)
    requires
        0 <= i <= s.len(),
    ensures
        line_at(s, i) <= 1 + bytes_to(s, i),
        col_at(s, i) <= 1 + bytes_to(s, i),
        bytes_to(s, i) <= bytes_to(s, s.len() as int),
    decreases i,
{
    if i > 0 {
        lemma_places(s, i - 1);
    }
    lemma_bytes_grow(s, i, s.len() as int);
}

proof fn lemma_bytes_grow(s: Seq<char>, i: int, j: int)
    requires
        0 <= i <= j <= s.len(),
    ensures
        bytes_to(s, i) <= bytes_to(s, j),
    decreases j,
{
    if i < j {
        lemma_bytes_grow(s, i, j - 1);
    }
}

/// Where a run of a class ends.
pub open spec fn run_end(s: Seq<char>, i: int, class: CharClass) -> int
    decreases s.len() - i,
{
    if 0 <= i < s.len() && belongs(s[i], class) {
        run_end(s, i + 1, class)
    } else {
        i
    }
}

pub(crate) proof fn lemma_run_end(s: Seq<char>, i: int, class: CharClass)
    requires
        0 <= i <= s.len(),
    ensures
        i <= run_end(s, i, class) <= s.len(),
        forall|j: int| i <= j < run_end(s, i, class) ==> belongs(#[trigger] s[j], class),
        run_end(s, i, class) < s.len() ==> !belongs(s[run_end(s, i, class)], class),
    decreases s.len() - i,
{
    if i < s.len() && belongs(s[i], class) {
        lemma_run_end(s, i + 1, class);
    }
}

/// Where quoted text ends that goes on at a place: after the quote that is not doubled.
pub open spec fn quoted_end(s: Seq<char>, i: int, q: char) -> Option<int>
    decreases s.len() - i,
{
    if i < 0 || i >= s.len() {
        None
    } else if s[i] != q {
        quoted_end(s, i + 1, q)
    } else if is_at(s, i + 1, q) {
        quoted_end(s, i + 2, q)
    } else {
        Some(i + 1)
    }
}

/// The text so quoted: a doubled quote stands for one.
pub open spec fn quoted_text(s: Seq<char>, i: int, q: char) -> Seq<char>
    decreases s.len() - i,
{
    if i < 0 || i >= s.len() {
        Seq::empty()
    } else if s[i] != q {
        seq![s[i]] + quoted_text(s, i + 1, q)
    } else if is_at(s, i + 1, q) {
        seq![q] + quoted_text(s, i + 2, q)
    } else {
        Seq::empty()
    }
}

pub(crate) proof fn lemma_quoted_end(s: Seq<char>, i: int, q: char)
    requires
        0 <= i <= s.len(),
    ensures
        match quoted_end(s, i, q) {
            Some(j) => i < j <= s.len(),
            None => true,
        },
    decreases s.len() - i,
{
    if i < s.len() {
        if s[i] != q {
            lemma_quoted_end(s, i + 1, q);
        } else if is_at(s, i + 1, q) {
            lemma_quoted_end(s, i + 2, q);
        }
    }
}

/// The place after white space and comments. Where a comment does not end: its start, and the end.
pub open spec fn trivia(s: Seq<char>, i: int) -> (Option<int>, int)
    decreases s.len() - i,
{
    if i < 0 || i >= s.len() {
        (None, i)
    } else if white(s[i]) {
        trivia(s, i + 1)
    } else if s[i] == '"' {
        match quoted_end(s, i + 1, '"') {
            Some(j) => if i < j <= s.len() {
                trivia(s, j)
            } else {
                (None, i)
            },
            None => (Some(i), s.len() as int),
        }
    } else {
        (None, i)
    }
}

pub(crate) proof fn lemma_trivia(s: Seq<char>, i: int)
    requires
        0 <= i <= s.len(),
    ensures
        i <= trivia(s, i).1 <= s.len(),
    decreases s.len() - i,
{
    if i < s.len() {
        if white(s[i]) {
            lemma_trivia(s, i + 1);
        } else if s[i] == '"' {
            lemma_quoted_end(s, i + 1, '"');
            match quoted_end(s, i + 1, '"') {
                Some(j) => {
                    lemma_trivia(s, j);
                },
                None => {},
            }
        }
    }
}

// ── Tokens at a place ───────────────────────────────────────────────────

/// What stands at a place, and the place after it. A failure carries its message and whether the
/// input ended too early.
pub enum Scan {
    Found(TokV, int),
    Failed(Seq<char>, bool, int),
}

impl Scan {
    pub open spec fn end(self) -> int {
        match self {
            Scan::Found(_, e) => e,
            Scan::Failed(_, _, e) => e,
        }
    }
}

/// An identifier or keyword. The colon of an assignment belongs to neither.
pub open spec fn word(s: Seq<char>, i: int) -> Scan {
    let e = run_end(s, i, CharClass::Ident);
    if is_at(s, e, ':') && !is_at(s, e + 1, '=') {
        Scan::Found(TokV::Keyword(s.subrange(i, e + 1)), e + 1)
    } else {
        Scan::Found(TokV::Ident(s.subrange(i, e)), e)
    }
}

/// An exponent: whether its letter is `e`, whether it is negative, and its digits.
pub open spec fn exponent(s: Seq<char>, i: int) -> Option<(bool, bool, int, int)> {
    let neg = is_at(s, i + 1, '-');
    let d = if neg {
        i + 2
    } else {
        i + 1
    };
    if (is_at(s, i, 'e') || is_at(s, i, 'E') || is_at(s, i, 'd') || is_at(s, i, 'D')) && digit_at(s, d) {
        Some((is_at(s, i, 'e') || is_at(s, i, 'E'), neg, d, run_end(s, d, CharClass::Digit)))
    } else {
        None
    }
}

/// A scale suffix.
pub enum Scale {
    Absent,
    Places(u16, int),
    TooLarge(int),
}

/// The suffix of a scaled decimal. An `s` that a word or a keyword goes on with is none.
pub open spec fn scale(s: Seq<char>, i: int, default: u16) -> Scale {
    if !is_at(s, i, 's') {
        Scale::Absent
    } else if digit_at(s, i + 1) {
        let e = run_end(s, i + 1, CharClass::Digit);
        let n = decimal(s.subrange(i + 1, e));
        if n <= 65535 {
            Scale::Places(n as u16, e)
        } else {
            Scale::TooLarge(e)
        }
    } else if 0 <= i + 1 < s.len() && (belongs(s[i + 1], CharClass::Ident) || s[i + 1] == ':') {
        Scale::Absent
    } else {
        Scale::Places(default, i + 1)
    }
}

/// A radix, as far as the machine's numbers go.
pub open spec fn radix_of(digits: Seq<char>) -> u32 {
    if decimal(digits) <= u32::MAX {
        decimal(digits) as u32
    } else {
        0
    }
}

/// The first character from `a` to `b` that is no digit of the radix.
pub open spec fn bad_digit(s: Seq<char>, a: int, b: int, radix: u32) -> Option<char>
    decreases b - a,
{
    if a < 0 || a >= b || b > s.len() {
        None
    } else if digit_value(s[a]) is None || digit_value(s[a])->0 >= radix {
        Some(s[a])
    } else {
        bad_digit(s, a + 1, b, radix)
    }
}

pub open spec fn radix_text(radix: u32) -> Seq<char> {
    "radix "@ + dec_text(radix as nat) + " out of range 2..=36"@
}

pub open spec fn digit_text(c: char, radix: u32) -> Seq<char> {
    "digit '"@ + seq![c] + "' is not valid in radix "@ + dec_text(radix as nat)
}

/// A number in a radix; the `r` stands at `e`.
pub open spec fn radix_number(s: Seq<char>, i: int, e: int, negative: bool) -> Scan {
    let radix = radix_of(s.subrange(i, e));
    if !(2 <= radix <= 36) {
        Scan::Failed(radix_text(radix), false, e)
    } else {
        let f = run_end(s, e + 1, CharClass::RadixDigit);
        if f == e + 1 {
            Scan::Failed("radix literal has no digits after 'r'"@, false, f)
        } else {
            match bad_digit(s, e + 1, f, radix) {
                Some(c) => Scan::Failed(digit_text(c, radix), false, f),
                None => Scan::Found(TokV::IntLit(negative, radix as u8, s.subrange(e + 1, f)), f),
            }
        }
    }
}

/// A text of digits with an exponent.
pub open spec fn with_exponent(text: Seq<char>, negative: bool, digits: Seq<char>) -> Seq<char> {
    text + "e"@ + if negative {
        "-"@
    } else {
        ""@
    } + digits
}

/// A number with a fraction; the point stands at `e`.
pub open spec fn fraction(s: Seq<char>, i: int, e: int, negative: bool) -> Scan {
    let f = run_end(s, e + 1, CharClass::Digit);
    let places = if f - (e + 1) <= 65535 {
        (f - (e + 1)) as u16
    } else {
        65535
    };
    match scale(s, f, places) {
        Scale::Places(n, end) => Scan::Found(
            TokV::ScaledLit(negative, s.subrange(i, e), s.subrange(e + 1, f), n),
            end,
        ),
        Scale::TooLarge(end) => Scan::Failed("scaled-decimal scale too large"@, false, end),
        Scale::Absent => match exponent(s, f) {
            Some((_, neg, d, end)) => Scan::Found(
                TokV::FloatLit(negative, with_exponent(s.subrange(i, f), neg, s.subrange(d, end))),
                end,
            ),
            None => Scan::Found(TokV::FloatLit(negative, s.subrange(i, f)), f),
        },
    }
}

/// A number that starts with digits up to `e`, without radix or fraction. An exponent of `e`
/// appends zeros.
pub open spec fn whole(s: Seq<char>, i: int, e: int, negative: bool) -> Scan {
    match scale(s, e, 0) {
        Scale::Places(n, end) => Scan::Found(TokV::ScaledLit(negative, s.subrange(i, e), Seq::empty(), n), end),
        Scale::TooLarge(end) => Scan::Failed("scaled-decimal scale too large"@, false, end),
        Scale::Absent => match exponent(s, e) {
            Some((is_e, neg, d, end)) => if is_e && !neg {
                let n = decimal(s.subrange(d, end));
                if n > u32::MAX {
                    Scan::Failed("integer exponent too large"@, false, end)
                } else if n > 10000 {
                    Scan::Failed("integer exponent too large (limit 10000 digits)"@, false, end)
                } else {
                    Scan::Found(TokV::IntLit(negative, 10, s.subrange(i, e) + Seq::new(n, |k: int| '0')), end)
                }
            } else {
                Scan::Found(TokV::FloatLit(negative, with_exponent(s.subrange(i, e), neg, s.subrange(d, end))), end)
            },
            None => Scan::Found(TokV::IntLit(negative, 10, s.subrange(i, e)), e),
        },
    }
}

/// A number, from its first digit on.
pub open spec fn number(s: Seq<char>, i: int, negative: bool) -> Scan {
    let e = run_end(s, i, CharClass::Digit);
    if is_at(s, e, 'r') {
        radix_number(s, i, e, negative)
    } else if is_at(s, e, '.') && digit_at(s, e + 1) {
        fraction(s, i, e, negative)
    } else {
        whole(s, i, e, negative)
    }
}

/// A character literal.
pub open spec fn char_literal(s: Seq<char>, i: int) -> Scan {
    if i + 1 < s.len() {
        Scan::Found(TokV::CharLit(s[i + 1]), i + 2)
    } else {
        Scan::Failed("'$' at end of input"@, true, i + 1)
    }
}

/// Text in single quotes; the quote stands at `i`.
pub open spec fn string_literal(s: Seq<char>, i: int) -> Scan {
    match quoted_end(s, i + 1, '\'') {
        Some(e) => Scan::Found(TokV::StrLit(quoted_text(s, i + 1, '\'')), e),
        None => Scan::Failed("unterminated string"@, true, s.len() as int),
    }
}

/// Where a binary selector ends: after one character, or two. In a pragma nothing follows `>`; a
/// `|` never merges; and a `-` stays with the digit after it.
pub open spec fn binary_end(s: Seq<char>, i: int, pragma: bool) -> int {
    if !(pragma && is_at(s, i, '>')) && i + 1 < s.len() && binary(s[i + 1]) && s[i + 1] != '|' && !(s[i + 1] == '-'
        && digit_at(s, i + 2)) {
        i + 2
    } else {
        i + 1
    }
}

/// Where a symbol of words and colons ends.
pub open spec fn symbol_end(s: Seq<char>, i: int) -> int
    decreases s.len() - i,
{
    let e = run_end(s, i, CharClass::Ident);
    if i <= e && is_at(s, e, ':') {
        if e + 1 < s.len() && ident_start(s[e + 1]) {
            symbol_end(s, e + 1)
        } else {
            e + 1
        }
    } else {
        e
    }
}

/// What a `#` at `i` starts.
pub open spec fn hash(s: Seq<char>, i: int, pragma: bool) -> Scan {
    let j = i + 1;
    if is_at(s, j, '(') {
        Scan::Found(TokV::LitArrayOpen, j + 1)
    } else if is_at(s, j, '[') {
        Scan::Found(TokV::ByteArrayOpen, j + 1)
    } else if is_at(s, j, '\'') {
        match string_literal(s, j) {
            Scan::Found(TokV::StrLit(t), e) => Scan::Found(TokV::SymLit(t), e),
            other => other,
        }
    } else if 0 <= j < s.len() && ident_start(s[j]) {
        Scan::Found(TokV::SymLit(s.subrange(j, symbol_end(s, j))), symbol_end(s, j))
    } else if is_at(s, j, '|') {
        Scan::Found(TokV::SymLit("|"@), j + 1)
    } else if 0 <= j < s.len() && binary(s[j]) {
        Scan::Found(TokV::SymLit(s.subrange(j, binary_end(s, j, pragma))), binary_end(s, j, pragma))
    } else {
        Scan::Failed("invalid '#' sequence"@, false, j)
    }
}

pub open spec fn unexpected_text(c: char) -> Seq<char> {
    "unexpected character '"@ + seq![c] + "'"@
}

/// The token at a place that is no white space and no comment. A `-` before a digit starts a
/// negative number among literals, and where no expression has ended.
pub open spec fn token(s: Seq<char>, i: int, prev_ends_expr: bool, pragma: bool, in_literal_seq: bool) -> Scan {
    if i < 0 || i >= s.len() {
        Scan::Found(TokV::Eof, i)
    } else {
        let c = s[i];
        if ident_start(c) {
            word(s, i)
        } else if dec_digit(c) {
            number(s, i, false)
        } else if c == '-' && digit_at(s, i + 1) && (in_literal_seq || !prev_ends_expr) {
            number(s, i + 1, true)
        } else if c == '$' {
            char_literal(s, i)
        } else if c == '\'' {
            string_literal(s, i)
        } else if c == '#' {
            hash(s, i, pragma)
        } else if c == '|' {
            Scan::Found(TokV::VBar, i + 1)
        } else if c == '(' {
            Scan::Found(TokV::LParen, i + 1)
        } else if c == ')' {
            Scan::Found(TokV::RParen, i + 1)
        } else if c == '[' {
            Scan::Found(TokV::LBracket, i + 1)
        } else if c == ']' {
            Scan::Found(TokV::RBracket, i + 1)
        } else if c == '{' {
            Scan::Found(TokV::LBrace, i + 1)
        } else if c == '}' {
            Scan::Found(TokV::RBrace, i + 1)
        } else if c == ';' {
            Scan::Found(TokV::Semi, i + 1)
        } else if c == '.' {
            Scan::Found(TokV::Period, i + 1)
        } else if c == '^' {
            Scan::Found(TokV::Caret, i + 1)
        } else if c == ':' {
            if is_at(s, i + 1, '=') {
                Scan::Found(TokV::Assign, i + 2)
            } else {
                Scan::Found(TokV::Colon, i + 1)
            }
        } else if binary(c) {
            Scan::Found(TokV::BinarySel(s.subrange(i, binary_end(s, i, pragma))), binary_end(s, i, pragma))
        } else {
            Scan::Failed(unexpected_text(c), false, i)
        }
    }
}

/// What a call gives: a token with its place, or a failure with its place.
pub open spec fn answers(r: Result<(Tok, Span), LexError>, s: Seq<char>, start: int, scan: Scan) -> bool {
    match (r, scan) {
        (Ok((t, span)), Scan::Found(v, _)) => tok_view(t) == v && span == span_at(s, start),
        (Err(e), Scan::Failed(msg, eof, _)) => e.msg@ == msg && e.eof == eof && e.span == span_at(s, start),
        _ => false,
    }
}

// ── The lexer ───────────────────────────────────────────────────────────

/// A lexer over a text.
pub struct Lexer {
    input: Vec<char>,
    pos: usize,
    line: u32,
    col: u32,
    prev_ends_expr: bool,
    pragma_mode: bool,
    in_literal_seq: bool,
}

impl Lexer {
    /// The whole text.
    pub closed spec fn text(&self) -> Seq<char> {
        self.input@
    }

    /// The place that has been reached.
    pub closed spec fn at(&self) -> int {
        self.pos as int
    }

    /// Whether an expression has just ended.
    pub closed spec fn after_expr(&self) -> bool {
        self.prev_ends_expr
    }

    pub closed spec fn in_pragma(&self) -> bool {
        self.pragma_mode
    }

    pub closed spec fn among_literals(&self) -> bool {
        self.in_literal_seq
    }

    pub closed spec fn wf(&self) -> bool {
        &&& self.pos <= self.input@.len()
        &&& fits(self.input@)
        &&& self.line == line_at(self.input@, self.pos as int)
        &&& self.col == col_at(self.input@, self.pos as int)
    }

    /// All but the place reached is as it was.
    spec fn moved(&self, before: &Lexer) -> bool {
        &&& self.wf()
        &&& self.input == before.input
        &&& self.prev_ends_expr == before.prev_ends_expr
        &&& self.pragma_mode == before.pragma_mode
        &&& self.in_literal_seq == before.in_literal_seq
    }

    /// A lexer at the start of a text.
    pub fn new(input: &str) -> (r: Lexer)
        requires
            fits(input@),
        ensures
            r.wf(),
            r.text() == input@,
            r.at() == 0,
            !r.after_expr(),
            !r.in_pragma(),
            !r.among_literals(),
    {
        Lexer {
            input: chars_of(input),
            pos: 0,
            line: 1,
            col: 1,
            prev_ends_expr: false,
            pragma_mode: false,
            in_literal_seq: false,
        }
    }

    /// In a pragma every `>` stands alone.
    pub fn set_pragma_mode(&mut self, v: bool)
        requires
            old(self).wf(),
        ensures
            final(self).wf(),
            final(self).in_pragma() == v,
            final(self).text() == old(self).text(),
            final(self).at() == old(self).at(),
            final(self).after_expr() == old(self).after_expr(),
            final(self).among_literals() == old(self).among_literals(),
    {
        self.pragma_mode = v;
    }

    /// Among literals a `-` before a digit always belongs to the number.
    pub fn set_in_literal_seq(&mut self, v: bool)
        requires
            old(self).wf(),
        ensures
            final(self).wf(),
            final(self).among_literals() == v,
            final(self).text() == old(self).text(),
            final(self).at() == old(self).at(),
            final(self).after_expr() == old(self).after_expr(),
            final(self).in_pragma() == old(self).in_pragma(),
    {
        self.in_literal_seq = v;
    }

    /// The character `n` places on.
    fn peek_char_at(&self, n: usize) -> (r: Option<char>)
        requires
            self.wf(),
        ensures
            match r {
                Some(c) => self.pos + n < self.input@.len() && c == self.input@[self.pos + n],
                None => self.pos + n >= self.input@.len(),
            },
    {
        let left: usize = self.input.len() - self.pos;
        if n < left {
            Some(self.input[self.pos + n])
        } else {
            None
        }
    }

    fn peek_char(&self) -> (r: Option<char>)
        requires
            self.wf(),
        ensures
            match r {
                Some(c) => self.pos < self.input@.len() && c == self.input@[self.pos as int],
                None => self.pos >= self.input@.len(),
            },
    {
        self.peek_char_at(0)
    }

    /// Whether a character stands `n` places on.
    fn sees(&self, n: usize, c: char) -> (r: bool)
        requires
            self.wf(),
        ensures
            r == is_at(self.input@, self.pos + n, c),
    {
        match self.peek_char_at(n) {
            Some(d) => c == d,
            None => false,
        }
    }

    fn sees_digit(&self, n: usize) -> (r: bool)
        requires
            self.wf(),
        ensures
            r == digit_at(self.input@, self.pos + n),
    {
        match self.peek_char_at(n) {
            Some(d) => is_in(d, CharClass::Digit),
            None => false,
        }
    }

    fn here(&self) -> (r: Span)
        requires
            self.wf(),
        ensures
            r == span_at(self.input@, self.pos as int),
    {
        Span { line: self.line, col: self.col }
    }

    fn bump(&mut self)
        requires
            old(self).wf(),
            old(self).pos < old(self).input@.len(),
        ensures
            final(self).moved(old(self)),
            final(self).pos == old(self).pos + 1,
    {
        proof {
            lemma_places(self.input@, self.pos as int);
            lemma_places(self.input@, self.pos + 1);
        }
        let c: char = self.input[self.pos];
        assert(self.pos < self.input.len());
        self.pos = self.pos + 1;
        if c == '\n' {
            self.line = self.line + 1;
            self.col = 1;
        } else {
            self.col = self.col + utf8_width(c);
        }
    }

    /// The characters between two places.
    fn slice(&self, from: usize, to: usize) -> (r: String)
        requires
            from <= to <= self.input@.len(),
        ensures
            r@ == self.input@.subrange(from as int, to as int),
    {
        let mut s: String = String::new();
        let mut i: usize = from;
        assert(s@ =~= self.input@.subrange(from as int, from as int));
        while i < to
            invariant
                from <= i <= to <= self.input@.len(),
                s@ == self.input@.subrange(from as int, i as int),
            decreases to - i,
        {
            s.push(self.input[i]);
            i += 1;
            assert(s@ =~= self.input@.subrange(from as int, i as int));
        }
        s
    }

    fn err(&self, span: Span, msg: &str) -> (e: LexError)
        ensures
            e.span == span,
            e.msg@ == msg@,
            !e.eof,
    {
        LexError { span, msg: msg.to_owned(), eof: false }
    }

    fn err_eof(&self, span: Span, msg: &str) -> (e: LexError)
        ensures
            e.span == span,
            e.msg@ == msg@,
            e.eof,
    {
        LexError { span, msg: msg.to_owned(), eof: true }
    }

    fn consume_while(&mut self, class: CharClass)
        requires
            old(self).wf(),
        ensures
            final(self).moved(old(self)),
            final(self).pos == run_end(old(self).input@, old(self).pos as int, class),
            old(self).pos <= final(self).pos <= old(self).input@.len(),
    {
        loop
            invariant
                self.moved(old(self)),
                old(self).pos <= self.pos <= self.input@.len(),
                run_end(self.input@, old(self).pos as int, class) == run_end(self.input@, self.pos as int, class),
            ensures
                self.pos == run_end(self.input@, self.pos as int, class),
            decreases self.input@.len() - self.pos,
        {
            match self.peek_char() {
                Some(c) => {
                    if !is_in(c, class) {
                        break;
                    }
                },
                None => {
                    break;
                },
            }
            self.bump();
        }
    }

    /// To the end of quoted text. None where there is no end.
    fn consume_quoted(&mut self, q: char) -> (r: Option<String>)
        requires
            old(self).wf(),
        ensures
            final(self).moved(old(self)),
            match (r, quoted_end(old(self).input@, old(self).pos as int, q)) {
                (Some(t), Some(e)) => final(self).pos == e && t@ == quoted_text(
                    old(self).input@,
                    old(self).pos as int,
                    q,
                ),
                (None, None) => final(self).pos == old(self).input@.len(),
                _ => false,
            },
    {
        let mut s: String = String::new();
        let ghost text = self.input@;
        let ghost from = self.pos as int;
        assert(s@ + quoted_text(text, from, q) =~= quoted_text(text, from, q));
        loop
            invariant
                self.moved(old(self)),
                text == self.input@,
                text == old(self).input@,
                from == old(self).pos,
                self.pos <= text.len(),
                quoted_end(text, from, q) == quoted_end(text, self.pos as int, q),
                s@ + quoted_text(text, self.pos as int, q) == quoted_text(text, from, q),
            decreases text.len() - self.pos,
        {
            let c: char = match self.peek_char() {
                Some(c) => c,
                None => {
                    return None;
                },
            };
            let ghost before = s@;
            let ghost at = self.pos as int;
            self.bump();
            if c == q {
                if !self.sees(0, q) {
                    assert(s@ + quoted_text(text, at, q) =~= s@);
                    return Some(s);
                }
                self.bump();
                s.push(q);
                assert(s@ + quoted_text(text, at + 2, q) =~= before + (seq![q] + quoted_text(text, at + 2, q)));
            } else {
                s.push(c);
                assert(s@ + quoted_text(text, at + 1, q) =~= before + (seq![c] + quoted_text(text, at + 1, q)));
            }
        }
    }

    fn skip_trivia(&mut self) -> (r: Result<(), LexError>)
        requires
            old(self).wf(),
        ensures
            final(self).moved(old(self)),
            final(self).pos == trivia(old(self).input@, old(self).pos as int).1,
            match (r, trivia(old(self).input@, old(self).pos as int).0) {
                (Ok(_), None) => true,
                (Err(e), Some(start)) => e.eof && e.msg@ == "unterminated comment"@ && e.span == span_at(
                    old(self).input@,
                    start,
                ),
                _ => false,
            },
    {
        let ghost text = self.input@;
        loop
            invariant
                self.moved(old(self)),
                text == self.input@,
                text == old(self).input@,
                trivia(text, old(self).pos as int) == trivia(text, self.pos as int),
            decreases text.len() - self.pos,
        {
            match self.peek_char() {
                Some(c) => {
                    if is_white(c) {
                        self.bump();
                    } else if c == '"' {
                        let start: Span = self.here();
                        self.bump();
                        proof {
                            lemma_quoted_end(text, self.pos as int, '"');
                        }
                        if self.consume_quoted('"').is_none() {
                            return Err(self.err_eof(start, "unterminated comment"));
                        }
                    } else {
                        return Ok(());
                    }
                },
                None => {
                    return Ok(());
                },
            }
        }
    }

    fn lex_ident_or_keyword(&mut self) -> (t: Tok)
        requires
            old(self).wf(),
        ensures
            final(self).moved(old(self)),
            word(old(self).input@, old(self).pos as int) == Scan::Found(tok_view(t), final(self).pos as int),
    {
        let from: usize = self.pos;
        self.consume_while(CharClass::Ident);
        if self.sees(0, ':') && !self.sees(1, '=') {
            self.bump();
            Tok::Keyword(self.slice(from, self.pos))
        } else {
            Tok::Ident(self.slice(from, self.pos))
        }
    }

    /// The value of a run of digits, where it is not too large.
    fn number_in(&self, from: usize, to: usize) -> (r: Option<u32>)
        requires
            from <= to <= self.input@.len(),
            all_digits(self.input@.subrange(from as int, to as int)),
        ensures
            match r {
                Some(n) => n == decimal(self.input@.subrange(from as int, to as int)),
                None => decimal(self.input@.subrange(from as int, to as int)) > u32::MAX,
            },
    {
        let ghost s = self.input@.subrange(from as int, to as int);
        let mut acc: u64 = 0;
        let mut i: usize = from;
        assert(s.take(0) =~= Seq::<char>::empty());
        while i < to
            invariant
                from <= i <= to <= self.input@.len(),
                s == self.input@.subrange(from as int, to as int),
                all_digits(s),
                acc == decimal(s.take(i - from)),
                acc <= u32::MAX,
            decreases to - i,
        {
            let c: char = self.input[i];
            proof {
                assert(s.take(i - from + 1).drop_last() =~= s.take(i - from));
                assert(s[i - from] == c);
                lemma_decimal_grows(s, i - from + 1);
            }
            acc = acc * 10 + (c as u64 - 48);
            if acc > 0xFFFF_FFFF {
                return None;
            }
            i += 1;
        }
        assert(s.take(to - from) =~= s);
        Some(acc as u32)
    }

    fn try_consume_exponent(&mut self) -> (r: Option<(bool, bool, usize)>)
        requires
            old(self).wf(),
        ensures
            final(self).moved(old(self)),
            match (r, exponent(old(self).input@, old(self).pos as int)) {
                (Some((is_e, neg, d)), Some((is_e2, neg2, d2, end))) => is_e == is_e2 && neg == neg2 && d == d2
                    && final(self).pos == end && d <= end && all_digits(old(self).input@.subrange(d as int, end)),
                (None, None) => final(self).pos == old(self).pos,
                _ => false,
            },
    {
        let is_e: bool = self.sees(0, 'e') || self.sees(0, 'E');
        if !is_e && !self.sees(0, 'd') && !self.sees(0, 'D') {
            return None;
        }
        let neg: bool = self.sees(1, '-');
        let off: usize = if neg {
            2
        } else {
            1
        };
        if !self.sees_digit(off) {
            return None;
        }
        self.bump();
        if neg {
            self.bump();
        }
        let d: usize = self.pos;
        proof {
            lemma_run_end(self.input@, d as int, CharClass::Digit);
        }
        self.consume_while(CharClass::Digit);
        Some((is_e, neg, d))
    }

    fn try_consume_scale(&mut self, default: u16, start: Span) -> (r: Result<Option<u16>, LexError>)
        requires
            old(self).wf(),
        ensures
            final(self).moved(old(self)),
            match (r, scale(old(self).input@, old(self).pos as int, default)) {
                (Ok(None), Scale::Absent) => final(self).pos == old(self).pos,
                (Ok(Some(n)), Scale::Places(m, end)) => n == m && final(self).pos == end,
                (Err(e), Scale::TooLarge(end)) => final(self).pos == end && e.span == start && !e.eof && e.msg@
                    == "scaled-decimal scale too large"@,
                _ => false,
            },
    {
        if !self.sees(0, 's') {
            return Ok(None);
        }
        match self.peek_char_at(1) {
            Some(c) => {
                if is_in(c, CharClass::Digit) {
                    self.bump();
                    let from: usize = self.pos;
                    proof {
                        lemma_run_end(self.input@, from as int, CharClass::Digit);
                    }
                    self.consume_while(CharClass::Digit);
                    match self.number_in(from, self.pos) {
                        Some(n) => {
                            if n > 65535 {
                                return Err(self.err(start, "scaled-decimal scale too large"));
                            }
                            return Ok(Some(n as u16));
                        },
                        None => {
                            return Err(self.err(start, "scaled-decimal scale too large"));
                        },
                    }
                }
                if is_in(c, CharClass::Ident) || c == ':' {
                    return Ok(None);
                }
            },
            None => {},
        }
        self.bump();
        Ok(Some(default))
    }

    /// The text of a number, with an exponent.
    fn exponent_text(&self, from: usize, to: usize, neg: bool, d: usize, end: usize) -> (r: String)
        requires
            from <= to <= self.input@.len(),
            d <= end <= self.input@.len(),
        ensures
            r@ == with_exponent(
                self.input@.subrange(from as int, to as int),
                neg,
                self.input@.subrange(d as int, end as int),
            ),
    {
        let mut s: String = self.slice(from, to);
        s.append("e");
        if neg {
            s.append("-");
        } else {
            s.append("");
        }
        s.append(self.slice(d, end).as_str());
        assert(s@ =~= with_exponent(
            self.input@.subrange(from as int, to as int),
            neg,
            self.input@.subrange(d as int, end as int),
        ));
        s
    }

    fn lex_radix(&mut self, from: usize, negative: bool, start: Span) -> (r: Result<Tok, LexError>)
        requires
            old(self).wf(),
            from <= old(self).pos,
            all_digits(old(self).input@.subrange(from as int, old(self).pos as int)),
            is_at(old(self).input@, old(self).pos as int, 'r'),
        ensures
            final(self).moved(old(self)),
            gives(
                r,
                start,
                final(self).pos as int,
                radix_number(old(self).input@, from as int, old(self).pos as int, negative),
            ),
    {
        let radix: u32 = match self.number_in(from, self.pos) {
            Some(n) => n,
            None => 0,
        };
        if radix < 2 || radix > 36 {
            let mut m: String = String::new();
            m.append("radix ");
            push_dec(&mut m, radix as u64);
            m.append(" out of range 2..=36");
            assert(m@ =~= radix_text(radix));
            return Err(LexError { span: start, msg: m, eof: false });
        }
        self.bump();
        let a: usize = self.pos;
        self.consume_while(CharClass::RadixDigit);
        let f: usize = self.pos;
        if f == a {
            return Err(self.err(start, "radix literal has no digits after 'r'"));
        }
        let mut i: usize = a;
        while i < f
            invariant
                self.moved(old(self)),
                a <= i <= f,
                f == self.pos,
                f <= self.input@.len(),
                self.input == old(self).input,
                a == old(self).pos + 1,
                f != a,
                f == run_end(self.input@, a as int, CharClass::RadixDigit),
                2 <= radix <= 36,
                radix == radix_of(self.input@.subrange(from as int, old(self).pos as int)),
                bad_digit(self.input@, a as int, f as int, radix) == bad_digit(self.input@, i as int, f as int, radix),
            decreases f - i,
        {
            let c: char = self.input[i];
            let bad: bool = match value_of_digit(c) {
                Some(v) => v >= radix,
                None => true,
            };
            if bad {
                let mut m: String = String::new();
                m.append("digit '");
                m.push(c);
                m.append("' is not valid in radix ");
                push_dec(&mut m, radix as u64);
                assert(m@ =~= digit_text(c, radix));
                return Err(LexError { span: start, msg: m, eof: false });
            }
            i += 1;
        }
        Ok(Tok::IntLit { negative, radix: radix as u8, digits: self.slice(a, f) })
    }

    fn lex_fraction(&mut self, from: usize, negative: bool, start: Span) -> (r: Result<Tok, LexError>)
        requires
            old(self).wf(),
            from <= old(self).pos,
            is_at(old(self).input@, old(self).pos as int, '.'),
        ensures
            final(self).moved(old(self)),
            gives(
                r,
                start,
                final(self).pos as int,
                fraction(old(self).input@, from as int, old(self).pos as int, negative),
            ),
    {
        let e: usize = self.pos;
        self.bump();
        self.consume_while(CharClass::Digit);
        let f: usize = self.pos;
        let n: usize = f - (e + 1);
        let places: u16 = if n <= 65535 {
            n as u16
        } else {
            65535
        };
        match self.try_consume_scale(places, start) {
            Ok(Some(scale)) => Ok(
                Tok::ScaledLit {
                    negative,
                    int_digits: self.slice(from, e),
                    frac_digits: self.slice(e + 1, f),
                    scale,
                },
            ),
            Ok(None) => match self.try_consume_exponent() {
                Some((_, neg, d)) => Ok(
                    Tok::FloatLit { negative, text: self.exponent_text(from, f, neg, d, self.pos) },
                ),
                None => Ok(Tok::FloatLit { negative, text: self.slice(from, f) }),
            },
            Err(x) => Err(x),
        }
    }

    fn lex_whole(&mut self, from: usize, negative: bool, start: Span) -> (r: Result<Tok, LexError>)
        requires
            old(self).wf(),
            from <= old(self).pos,
        ensures
            final(self).moved(old(self)),
            gives(
                r,
                start,
                final(self).pos as int,
                whole(old(self).input@, from as int, old(self).pos as int, negative),
            ),
    {
        let e: usize = self.pos;
        match self.try_consume_scale(0, start) {
            Ok(Some(scale)) => {
                let frac_digits: String = String::new();
                assert(frac_digits@ =~= Seq::<char>::empty());
                return Ok(Tok::ScaledLit { negative, int_digits: self.slice(from, e), frac_digits, scale });
            },
            Ok(None) => {},
            Err(x) => {
                return Err(x);
            },
        }
        match self.try_consume_exponent() {
            Some((is_e, neg, d)) => {
                if is_e && !neg {
                    let n: u32 = match self.number_in(d, self.pos) {
                        Some(n) => n,
                        None => {
                            return Err(self.err(start, "integer exponent too large"));
                        },
                    };
                    if n > 10000 {
                        return Err(self.err(start, "integer exponent too large (limit 10000 digits)"));
                    }
                    let mut digits: String = self.slice(from, e);
                    let ghost lead = digits@;
                    let mut k: u32 = 0;
                    assert(digits@ =~= lead + Seq::new(0, |k: int| '0'));
                    while k < n
                        invariant
                            k <= n,
                            digits@ == lead + Seq::new(k as nat, |k: int| '0'),
                        decreases n - k,
                    {
                        digits.push('0');
                        k += 1;
                        assert(digits@ =~= lead + Seq::new(k as nat, |k: int| '0'));
                    }
                    return Ok(Tok::IntLit { negative, radix: 10, digits });
                }
                Ok(Tok::FloatLit { negative, text: self.exponent_text(from, e, neg, d, self.pos) })
            },
            None => Ok(Tok::IntLit { negative, radix: 10, digits: self.slice(from, e) }),
        }
    }

    fn lex_number(&mut self, negative: bool, start: Span) -> (r: Result<Tok, LexError>)
        requires
            old(self).wf(),
        ensures
            final(self).moved(old(self)),
            gives(r, start, final(self).pos as int, number(old(self).input@, old(self).pos as int, negative)),
    {
        let from: usize = self.pos;
        proof {
            lemma_run_end(self.input@, from as int, CharClass::Digit);
        }
        self.consume_while(CharClass::Digit);
        if self.sees(0, 'r') {
            self.lex_radix(from, negative, start)
        } else if self.sees(0, '.') && self.sees_digit(1) {
            self.lex_fraction(from, negative, start)
        } else {
            self.lex_whole(from, negative, start)
        }
    }

    fn lex_char_literal(&mut self, start: Span) -> (r: Result<Tok, LexError>)
        requires
            old(self).wf(),
            old(self).pos < old(self).input@.len(),
        ensures
            final(self).moved(old(self)),
            gives(r, start, final(self).pos as int, char_literal(old(self).input@, old(self).pos as int)),
    {
        self.bump();
        match self.peek_char() {
            Some(c) => {
                self.bump();
                Ok(Tok::CharLit(c))
            },
            None => Err(self.err_eof(start, "'$' at end of input")),
        }
    }

    fn lex_quoted_text(&mut self, start: Span) -> (r: Result<String, LexError>)
        requires
            old(self).wf(),
            old(self).pos < old(self).input@.len(),
        ensures
            final(self).moved(old(self)),
            match (r, string_literal(old(self).input@, old(self).pos as int)) {
                (Ok(t), Scan::Found(v, end)) => v == TokV::StrLit(t@) && final(self).pos == end,
                (Err(x), Scan::Failed(msg, eof, end)) => x.msg@ == msg && x.eof == eof && x.span == start
                    && final(self).pos == end,
                _ => false,
            },
    {
        self.bump();
        match self.consume_quoted('\'') {
            Some(t) => Ok(t),
            None => Err(self.err_eof(start, "unterminated string")),
        }
    }

    fn lex_string_literal(&mut self, start: Span) -> (r: Result<Tok, LexError>)
        requires
            old(self).wf(),
            old(self).pos < old(self).input@.len(),
        ensures
            final(self).moved(old(self)),
            gives(r, start, final(self).pos as int, string_literal(old(self).input@, old(self).pos as int)),
    {
        match self.lex_quoted_text(start) {
            Ok(t) => Ok(Tok::StrLit(t)),
            Err(x) => Err(x),
        }
    }

    fn lex_binary_sel(&mut self) -> (r: String)
        requires
            old(self).wf(),
            old(self).pos < old(self).input@.len(),
        ensures
            final(self).moved(old(self)),
            final(self).pos == binary_end(old(self).input@, old(self).pos as int, old(self).pragma_mode),
            r@ == old(self).input@.subrange(old(self).pos as int, final(self).pos as int),
    {
        let from: usize = self.pos;
        let merge: bool = !(self.pragma_mode && self.sees(0, '>'));
        self.bump();
        if merge {
            match self.peek_char() {
                Some(c) => {
                    if is_binary_char(c) && c != '|' && !(c == '-' && self.sees_digit(1)) {
                        self.bump();
                    }
                },
                None => {},
            }
        }
        self.slice(from, self.pos)
    }

    /// Words and colons of a symbol.
    fn consume_symbol(&mut self)
        requires
            old(self).wf(),
        ensures
            final(self).moved(old(self)),
            final(self).pos == symbol_end(old(self).input@, old(self).pos as int),
            old(self).pos <= final(self).pos,
    {
        let ghost text = self.input@;
        loop
            invariant
                self.moved(old(self)),
                text == self.input@,
                text == old(self).input@,
                old(self).pos <= self.pos,
                symbol_end(text, old(self).pos as int) == symbol_end(text, self.pos as int),
            decreases text.len() - self.pos,
        {
            self.consume_while(CharClass::Ident);
            if !self.sees(0, ':') {
                return;
            }
            self.bump();
            match self.peek_char() {
                Some(c) => {
                    if !is_ident_start(c) {
                        return;
                    }
                },
                None => {
                    return;
                },
            }
        }
    }

    fn lex_hash(&mut self, start: Span) -> (r: Result<Tok, LexError>)
        requires
            old(self).wf(),
            old(self).pos < old(self).input@.len(),
        ensures
            final(self).moved(old(self)),
            gives(
                r,
                start,
                final(self).pos as int,
                hash(old(self).input@, old(self).pos as int, old(self).pragma_mode),
            ),
    {
        self.bump();
        let c: char = match self.peek_char() {
            Some(c) => c,
            None => {
                return Err(self.err(start, "invalid '#' sequence"));
            },
        };
        if c == '(' {
            self.bump();
            Ok(Tok::LitArrayOpen)
        } else if c == '[' {
            self.bump();
            Ok(Tok::ByteArrayOpen)
        } else if c == '\'' {
            match self.lex_quoted_text(start) {
                Ok(t) => Ok(Tok::SymLit(t)),
                Err(x) => Err(x),
            }
        } else if is_ident_start(c) {
            let from: usize = self.pos;
            self.consume_symbol();
            Ok(Tok::SymLit(self.slice(from, self.pos)))
        } else if c == '|' {
            self.bump();
            Ok(Tok::SymLit("|".to_owned()))
        } else if is_binary_char(c) {
            let t: String = self.lex_binary_sel();
            Ok(Tok::SymLit(t))
        } else {
            Err(self.err(start, "invalid '#' sequence"))
        }
    }

    /// The token at the place reached.
    #[verifier::spinoff_prover]
    fn lex_token(&mut self, start: Span) -> (r: Result<Tok, LexError>)
        requires
            old(self).wf(),
        ensures
            final(self).moved(old(self)),
            gives(
                r,
                start,
                final(self).pos as int,
                token(
                    old(self).input@,
                    old(self).pos as int,
                    old(self).prev_ends_expr,
                    old(self).pragma_mode,
                    old(self).in_literal_seq,
                ),
            ),
    {
        let c: char = match self.peek_char() {
            Some(c) => c,
            None => {
                return Ok(Tok::Eof);
            },
        };
        if is_ident_start(c) {
            return Ok(self.lex_ident_or_keyword());
        }
        if is_in(c, CharClass::Digit) {
            return self.lex_number(false, start);
        }
        if c == '-' && self.sees_digit(1) && (self.in_literal_seq || !self.prev_ends_expr) {
            self.bump();
            return self.lex_number(true, start);
        }
        if c == '$' {
            return self.lex_char_literal(start);
        }
        if c == '\'' {
            return self.lex_string_literal(start);
        }
        if c == '#' {
            return self.lex_hash(start);
        }
        let single: Option<Tok> = match c {
            '|' => Some(Tok::VBar),
            '(' => Some(Tok::LParen),
            ')' => Some(Tok::RParen),
            '[' => Some(Tok::LBracket),
            ']' => Some(Tok::RBracket),
            '{' => Some(Tok::LBrace),
            '}' => Some(Tok::RBrace),
            ';' => Some(Tok::Semi),
            '.' => Some(Tok::Period),
            '^' => Some(Tok::Caret),
            _ => None,
        };
        match single {
            Some(t) => {
                self.bump();
                return Ok(t);
            },
            None => {},
        }
        if c == ':' {
            self.bump();
            if self.sees(0, '=') {
                self.bump();
                return Ok(Tok::Assign);
            }
            return Ok(Tok::Colon);
        }
        if is_binary_char(c) {
            let t: String = self.lex_binary_sel();
            return Ok(Tok::BinarySel(t));
        }
        let mut m: String = String::new();
        m.append("unexpected character '");
        m.push(c);
        m.append("'");
        assert(m@ =~= unexpected_text(c));
        Err(LexError { span: start, msg: m, eof: false })
    }

    /// The next token and its place. At the end of the text it is always the last token.
    pub fn next_token(&mut self) -> (r: Result<(Tok, Span), LexError>)
        requires
            old(self).wf(),
        ensures
            final(self).wf(),
            final(self).text() == old(self).text(),
            final(self).in_pragma() == old(self).in_pragma(),
            final(self).among_literals() == old(self).among_literals(),
            final(self).at() == next(
                old(self).text(),
                old(self).at(),
                old(self).after_expr(),
                old(self).in_pragma(),
                old(self).among_literals(),
            ).1.end(),
            answers(
                r,
                old(self).text(),
                next(
                    old(self).text(),
                    old(self).at(),
                    old(self).after_expr(),
                    old(self).in_pragma(),
                    old(self).among_literals(),
                ).0,
                next(
                    old(self).text(),
                    old(self).at(),
                    old(self).after_expr(),
                    old(self).in_pragma(),
                    old(self).among_literals(),
                ).1,
            ),
            final(self).after_expr() == match r {
                Ok((t, _)) => ends_expr(tok_view(t)),
                Err(_) => old(self).after_expr(),
            },
            reads(*old(self), r, *final(self)),
    {
        match self.skip_trivia() {
            Ok(_) => {},
            Err(x) => {
                return Err(x);
            },
        }
        let start: Span = self.here();
        match self.lex_token(start) {
            Ok(t) => {
                self.prev_ends_expr = tok_ends_expr(&t);
                Ok((t, start))
            },
            Err(x) => Err(x),
        }
    }
}

/// One reading: the lexer before it, what it gave, and the lexer after it.
pub open spec fn reads(a: Lexer, r: Result<(Tok, Span), LexError>, b: Lexer) -> bool {
    let (start, scan) = next(a.text(), a.at(), a.after_expr(), a.in_pragma(), a.among_literals());
    &&& b.text() == a.text()
    &&& b.in_pragma() == a.in_pragma()
    &&& b.among_literals() == a.among_literals()
    &&& b.at() == scan.end()
    &&& answers(r, a.text(), start, scan)
    &&& b.after_expr() == match r {
        Ok((t, _)) => ends_expr(tok_view(t)),
        Err(_) => a.after_expr(),
    }
}

/// What a part of the lexer gives, having reached a place.
spec fn gives(r: Result<Tok, LexError>, start: Span, end: int, scan: Scan) -> bool {
    match (r, scan) {
        (Ok(t), Scan::Found(v, e)) => tok_view(t) == v && e == end,
        (Err(x), Scan::Failed(msg, eof, e)) => x.msg@ == msg && x.eof == eof && x.span == start && e == end,
        _ => false,
    }
}

/// What is read from a place on, white space and comments before it skipped: where it starts, and
/// what it is.
pub open spec fn next(s: Seq<char>, i: int, prev_ends_expr: bool, pragma: bool, in_literal_seq: bool) -> (int, Scan) {
    let (open, at) = trivia(s, i);
    match open {
        Some(start) => (start, Scan::Failed("unterminated comment"@, true, at)),
        None => (at, token(s, at, prev_ends_expr, pragma, in_literal_seq)),
    }
}

// ── Magnitudes ──────────────────────────────────────────────────────────

/// The number that digits write in a radix.
pub open spec fn digits_value(radix: nat, s: Seq<char>) -> nat
    decreases s.len(),
{
    if s.len() == 0 {
        0
    } else {
        radix * digits_value(radix, s.drop_last()) + digit_value(s.last())->0 as nat
    }
}

/// The weight of a byte.
pub open spec fn weight(k: nat) -> nat
    decreases k,
{
    if k == 0 {
        1
    } else {
        256 * weight((k - 1) as nat)
    }
}

/// The number that the first `k` bytes hold, the lowest first.
pub open spec fn low_value(m: Seq<u8>, k: int) -> nat
    decreases k,
{
    if k <= 0 || k > m.len() {
        0
    } else {
        low_value(m, k - 1) + m[k - 1] as nat * weight((k - 1) as nat)
    }
}

pub open spec fn bytes_value(m: Seq<u8>) -> nat {
    low_value(m, m.len() as int)
}

/// No leading zero byte: zero has no bytes.
pub open spec fn no_leading_zero(m: Seq<u8>) -> bool {
    m.len() > 0 ==> m.last() != 0
}

pub open spec fn all_digit_values(s: Seq<char>) -> bool {
    forall|i: int| 0 <= i < s.len() ==> digit_value(#[trigger] s[i]) is Some
}

proof fn lemma_low_same(a: Seq<u8>, b: Seq<u8>, k: int)
    requires
        0 <= k <= a.len(),
        k <= b.len(),
        forall|i: int| 0 <= i < k ==> a[i] == b[i],
    ensures
        low_value(a, k) == low_value(b, k),
    decreases k,
{
    if k > 0 {
        lemma_low_same(a, b, k - 1);
    }
}

/// Multiplies a magnitude by the radix and adds a digit.
fn scale_and_add(mag: &mut Vec<u8>, radix: u32, digit: u32)
    requires
        2 <= radix <= 36,
        digit < 36,
        no_leading_zero(old(mag)@),
    ensures
        bytes_value(final(mag)@) == radix * bytes_value(old(mag)@) + digit,
        no_leading_zero(final(mag)@),
{
    let ghost m0 = mag@;
    let n: usize = mag.len();
    let mut carry: u32 = digit;
    let mut i: usize = 0;
    assert(carry * weight(0) == digit) by (nonlinear_arith)
        requires
            carry == digit,
            weight(0) == 1,
    ;
    assert(radix * low_value(m0, 0) == 0) by (nonlinear_arith)
        requires
            low_value(m0, 0) == 0,
    ;
    while i < n
        invariant
            i <= n,
            mag@.len() == n,
            m0.len() == n,
            2 <= radix <= 36,
            carry < 36 + radix,
            forall|k: int| i <= k < n ==> mag@[k] == m0[k],
            low_value(mag@, i as int) + carry * weight(i as nat) == radix * low_value(m0, i as int) + digit,
            i == n && n > 0 && m0[n - 1] != 0 ==> mag@[n - 1] != 0 || carry > 0,
        decreases n - i,
    {
        let old_byte: u8 = mag[i];
        assert(old_byte as u32 * radix <= 255 * 36) by (nonlinear_arith)
            requires
                old_byte <= 255,
                2 <= radix <= 36,
        ;
        let v: u32 = old_byte as u32 * radix + carry;
        let ghost before = mag@;
        let ghost c = carry;
        let byte: u8 = (v % 256) as u8;
        mag.set(i, byte);
        carry = v / 256;
        proof {
            lemma_low_same(before, mag@, i as int);
            let w = weight(i as nat);
            let x = low_value(before, i as int);
            let y = low_value(m0, i as int);
            assert(weight((i + 1) as nat) == 256 * w);
            assert(x + byte as nat * w + carry * (256 * w) == radix * (y + old_byte as nat * w) + digit) by (nonlinear_arith)
                requires
                    x + c * w == radix * y + digit,
                    byte as int + 256 * carry == old_byte * radix + c,
            ;
            assert(old_byte != 0 ==> v > 0) by (nonlinear_arith)
                requires
                    v == old_byte as u32 * radix + c,
                    radix >= 2,
            ;
        }
        i += 1;
    }
    while carry > 0
        invariant
            mag@.len() >= n,
            m0.len() == n,
            low_value(mag@, mag@.len() as int) + carry * weight(mag@.len()) == radix * low_value(m0, n as int) + digit,
            carry == 0 ==> no_leading_zero(mag@),
        decreases carry,
    {
        let ghost before = mag@;
        let ghost c = carry;
        let byte: u8 = (carry % 256) as u8;
        mag.push(byte);
        carry = carry / 256;
        proof {
            lemma_low_same(before, mag@, before.len() as int);
            let w = weight(before.len());
            let x = low_value(before, before.len() as int);
            assert(weight((before.len() + 1) as nat) == 256 * w);
            assert(x + byte as nat * w + carry * (256 * w) == x + c * w) by (nonlinear_arith)
                requires
                    byte as int + 256 * carry == c,
            ;
        }
    }
    assert(carry * weight(mag@.len()) == 0) by (nonlinear_arith)
        requires
            carry == 0,
    ;
}

/// The magnitude of digits in a radix, in bytes, the lowest first. Zero has none.
pub fn int_lit_magnitude(radix: u32, digits: &str) -> (mag: Vec<u8>)
    requires
        2 <= radix <= 36,
        all_digit_values(digits@),
    ensures
        bytes_value(mag@) == digits_value(radix as nat, digits@),
        no_leading_zero(mag@),
{
    let chars: Vec<char> = chars_of(digits);
    let mut mag: Vec<u8> = Vec::new();
    let mut i: usize = 0;
    assert(chars@.take(0) =~= Seq::<char>::empty());
    while i < chars.len()
        invariant
            i <= chars@.len(),
            2 <= radix <= 36,
            all_digit_values(chars@),
            bytes_value(mag@) == digits_value(radix as nat, chars@.take(i as int)),
            no_leading_zero(mag@),
        decreases chars@.len() - i,
    {
        let d: u32 = match value_of_digit(chars[i]) {
            Some(d) => d,
            None => 0,
        };
        proof {
            assert(digit_value(chars@[i as int]) is Some);
            assert(chars@.take(i + 1).drop_last() =~= chars@.take(i as int));
        }
        scale_and_add(&mut mag, radix, d);
        i += 1;
    }
    assert(chars@.take(i as int) =~= chars@);
    mag
}

// ── Laws ────────────────────────────────────────────────────────────────

proof fn lemma_low_first(m: Seq<u8>, k: int)
    requires
        0 < k <= m.len(),
    ensures
        low_value(m, k) == m[0] as nat + 256 * low_value(m.skip(1), k - 1),
    decreases k,
{
    if k == 1 {
        assert(low_value(m, 0) == 0);
        assert(m[0] as nat * weight(0) == m[0] as nat) by (nonlinear_arith)
            requires
                weight(0) == 1,
        ;
    } else {
        lemma_low_first(m, k - 1);
        let x = m[k - 1] as nat;
        let w = weight((k - 2) as nat);
        assert(m.skip(1)[k - 2] == m[k - 1]);
        assert(weight((k - 1) as nat) == 256 * w);
        assert(x * (256 * w) == 256 * (x * w)) by (nonlinear_arith);
    }
}

/// A number has one magnitude without a leading zero byte.
pub proof fn law_magnitude_is_unique(a: Seq<u8>, b: Seq<u8>)
    requires
        no_leading_zero(a),
        no_leading_zero(b),
        bytes_value(a) == bytes_value(b),
    ensures
        a == b,
    decreases a.len(),
{
    if a.len() == 0 && b.len() == 0 {
        assert(a =~= b);
    } else if a.len() == 0 {
        lemma_positive(b);
    } else if b.len() == 0 {
        lemma_positive(a);
    } else {
        lemma_low_first(a, a.len() as int);
        lemma_low_first(b, b.len() as int);
        assert(a[0] == b[0]);
        if a.len() > 1 {
            assert(a.skip(1).last() == a.last());
        }
        if b.len() > 1 {
            assert(b.skip(1).last() == b.last());
        }
        law_magnitude_is_unique(a.skip(1), b.skip(1));
        assert(a =~= seq![a[0]] + a.skip(1));
        assert(b =~= seq![b[0]] + b.skip(1));
    }
}

proof fn lemma_positive(m: Seq<u8>)
    requires
        m.len() > 0,
        no_leading_zero(m),
    ensures
        bytes_value(m) > 0,
    decreases m.len(),
{
    lemma_low_first(m, m.len() as int);
    if m.len() > 1 {
        assert(m.skip(1).last() == m.last());
        lemma_positive(m.skip(1));
    }
}

pub(crate) proof fn lemma_exponent_bounds(s: Seq<char>, i: int)
    requires
        0 <= i <= s.len(),
    ensures
        match exponent(s, i) {
            Some((_, _, d, end)) => i < d < end <= s.len() && all_digits(s.subrange(d, end)),
            None => true,
        },
{
    match exponent(s, i) {
        Some((_, _, d, _)) => {
            lemma_run_end(s, d, CharClass::Digit);
        },
        None => {},
    }
}

pub(crate) proof fn lemma_scale_bounds(s: Seq<char>, i: int, default: u16)
    requires
        0 <= i <= s.len(),
    ensures
        match scale(s, i, default) {
            Scale::Places(_, end) => i < end <= s.len(),
            Scale::TooLarge(end) => i < end <= s.len(),
            Scale::Absent => true,
        },
{
    if digit_at(s, i + 1) {
        lemma_run_end(s, i + 1, CharClass::Digit);
    }
}

/// The digits of an integer literal are digits of its radix.
pub open spec fn valid_int(t: TokV) -> bool {
    match t {
        TokV::IntLit(_, radix, digits) => 2 <= radix <= 36 && digits.len() > 0 && forall|k: int|
            0 <= k < digits.len() ==> (digit_value(#[trigger] digits[k]) matches Some(v) && v < radix),
        _ => true,
    }
}

pub(crate) proof fn lemma_no_bad_digit(s: Seq<char>, a: int, b: int, radix: u32)
    requires
        0 <= a <= b <= s.len(),
        bad_digit(s, a, b, radix) is None,
    ensures
        forall|k: int| a <= k < b ==> (digit_value(#[trigger] s[k]) matches Some(v) && v < radix),
    decreases b - a,
{
    if a < b {
        lemma_no_bad_digit(s, a + 1, b, radix);
    }
}

pub(crate) proof fn lemma_number(s: Seq<char>, i: int, negative: bool)
    requires
        digit_at(s, i),
    ensures
        i < number(s, i, negative).end() <= s.len(),
        number(s, i, negative) matches Scan::Found(t, _) ==> valid_int(t),
        number(s, i, negative) matches Scan::Found(t, _) ==> !(t is Eof),
{
    lemma_run_end(s, i, CharClass::Digit);
    let e = run_end(s, i, CharClass::Digit);
    if is_at(s, e, 'r') {
        lemma_run_end(s, e + 1, CharClass::RadixDigit);
        let f = run_end(s, e + 1, CharClass::RadixDigit);
        let radix = radix_of(s.subrange(i, e));
        if bad_digit(s, e + 1, f, radix) is None {
            lemma_no_bad_digit(s, e + 1, f, radix);
        }
    } else if is_at(s, e, '.') && digit_at(s, e + 1) {
        lemma_run_end(s, e + 1, CharClass::Digit);
        let f = run_end(s, e + 1, CharClass::Digit);
        lemma_scale_bounds(
            s,
            f,
            if f - (e + 1) <= 65535 {
                (f - (e + 1)) as u16
            } else {
                65535
            },
        );
        lemma_exponent_bounds(s, f);
    } else {
        lemma_scale_bounds(s, e, 0);
        lemma_exponent_bounds(s, e);
        assert(forall|k: int| i <= k < e ==> (digit_value(#[trigger] s[k]) matches Some(v) && v < 10));
    }
}

pub(crate) proof fn lemma_symbol_end(s: Seq<char>, i: int)
    requires
        0 <= i < s.len(),
        ident_start(s[i]),
    ensures
        i < symbol_end(s, i) <= s.len(),
    decreases s.len() - i,
{
    lemma_run_end(s, i, CharClass::Ident);
    assert(run_end(s, i, CharClass::Ident) > i) by {
        lemma_run_end(s, i + 1, CharClass::Ident);
    }
    let e = run_end(s, i, CharClass::Ident);
    if is_at(s, e, ':') && e + 1 < s.len() && ident_start(s[e + 1]) {
        lemma_symbol_end(s, e + 1);
    }
}

/// Reading goes forward: a token starts at or after the place reached, takes at least one
/// character and stays in the text. Only the end of the text takes none. A failure goes at least as
/// far as its start.
pub proof fn law_reading_goes_forward(s: Seq<char>, i: int, prev_ends_expr: bool, pragma: bool, in_literal_seq: bool)
    requires
        0 <= i <= s.len(),
    ensures
        ({
            let (start, scan) = next(s, i, prev_ends_expr, pragma, in_literal_seq);
            &&& i <= start <= scan.end() <= s.len()
            &&& scan matches Scan::Found(t, e) ==> (t is Eof <==> start == s.len()) && (start < e || t is Eof)
        }),
{
    lemma_trivia(s, i);
    lemma_trivia_start(s, i);
    let (open, at) = trivia(s, i);
    if open is None && at < s.len() {
        let c = s[at];
        lemma_run_end(s, at, CharClass::Ident);
        lemma_run_end(s, at + 1, CharClass::Ident);
        lemma_quoted_end(s, at + 1, '\'');
        if dec_digit(c) {
            lemma_number(s, at, false);
        }
        if digit_at(s, at + 1) {
            lemma_number(s, at + 1, true);
        }
        if at + 1 < s.len() {
            lemma_quoted_end(s, at + 2, '\'');
            if ident_start(s[at + 1]) {
                lemma_symbol_end(s, at + 1);
            }
        }
    }
}

proof fn lemma_trivia_start(s: Seq<char>, i: int)
    requires
        0 <= i <= s.len(),
    ensures
        trivia(s, i).0 matches Some(start) ==> i <= start < s.len() && trivia(s, i).1 == s.len(),
    decreases s.len() - i,
{
    if i < s.len() {
        if white(s[i]) {
            lemma_trivia_start(s, i + 1);
        } else if s[i] == '"' {
            lemma_quoted_end(s, i + 1, '"');
            match quoted_end(s, i + 1, '"') {
                Some(j) => {
                    lemma_trivia_start(s, j);
                },
                None => {},
            }
        }
    }
}

/// An integer literal has digits of its radix only, and at least one.
pub proof fn law_int_literals_are_valid(s: Seq<char>, i: int, prev_ends_expr: bool, pragma: bool, in_literal_seq: bool)
    requires
        0 <= i <= s.len(),
    ensures
        token(s, i, prev_ends_expr, pragma, in_literal_seq) matches Scan::Found(t, _) ==> valid_int(t),
{
    if digit_at(s, i) {
        lemma_number(s, i, false);
    }
    if digit_at(s, i + 1) {
        lemma_number(s, i + 1, true);
    }
}

/// In a pragma a `>` stands alone, whatever follows.
pub proof fn law_pragma_close_stands_alone(s: Seq<char>, i: int, prev_ends_expr: bool, in_literal_seq: bool)
    requires
        is_at(s, i, '>'),
    ensures
        token(s, i, prev_ends_expr, true, in_literal_seq) == Scan::Found(TokV::BinarySel(seq!['>']), i + 1),
{
    assert(s.subrange(i, i + 1) =~= seq!['>']);
}

/// A bar stands alone, whatever follows.
pub proof fn law_bar_stands_alone(s: Seq<char>, i: int, prev_ends_expr: bool, pragma: bool, in_literal_seq: bool)
    requires
        is_at(s, i, '|'),
    ensures
        token(s, i, prev_ends_expr, pragma, in_literal_seq) == Scan::Found(TokV::VBar, i + 1),
{
}

pub open spec fn negative_number(t: TokV) -> bool {
    match t {
        TokV::IntLit(n, _, _) => n,
        TokV::ScaledLit(n, _, _, _) => n,
        TokV::FloatLit(n, _) => n,
        _ => false,
    }
}

/// A `-` before a digit is a negative number's sign among literals, and elsewhere exactly where no
/// expression has ended; otherwise it is an operator of its own.
pub proof fn law_minus_before_digit(s: Seq<char>, i: int, prev_ends_expr: bool, pragma: bool, in_literal_seq: bool)
    requires
        is_at(s, i, '-'),
        digit_at(s, i + 1),
    ensures
        in_literal_seq || !prev_ends_expr ==> (token(s, i, prev_ends_expr, pragma, in_literal_seq) matches Scan::Found(
            t,
            _,
        ) ==> negative_number(t)),
        !in_literal_seq && prev_ends_expr ==> token(s, i, prev_ends_expr, pragma, in_literal_seq) == Scan::Found(
            TokV::BinarySel(seq!['-']),
            i + 1,
        ),
{
    assert(s.subrange(i, i + 1) =~= seq!['-']);
}

/// A text with each quote doubled.
pub open spec fn doubled(t: Seq<char>, q: char) -> Seq<char>
    decreases t.len(),
{
    if t.len() == 0 {
        Seq::empty()
    } else if t[0] == q {
        seq![q, q] + doubled(t.skip(1), q)
    } else {
        seq![t[0]] + doubled(t.skip(1), q)
    }
}

/// A text that is quoted, with its own quotes doubled, reads back as it was.
pub proof fn law_quoted_text_reads_back(s: Seq<char>, i: int, t: Seq<char>, q: char)
    requires
        0 <= i,
        i + doubled(t, q).len() < s.len(),
        s.subrange(i, i + doubled(t, q).len()) == doubled(t, q),
        s[i + doubled(t, q).len()] == q,
        !is_at(s, i + doubled(t, q).len() + 1, q),
    ensures
        quoted_end(s, i, q) == Some(i + doubled(t, q).len() + 1),
        quoted_text(s, i, q) == t,
    decreases t.len(),
{
    let d = doubled(t, q);
    if t.len() == 0 {
        assert(t =~= Seq::<char>::empty());
    } else {
        let rest = doubled(t.skip(1), q);
        let sub = s.subrange(i, i + d.len());
        if t[0] == q {
            assert(d.len() == rest.len() + 2);
            assert(s[i] == sub[0] && s[i + 1] == sub[1]);
            assert(d[0] == q && d[1] == q);
            assert(s.subrange(i + 2, i + 2 + rest.len()) =~= rest) by {
                assert(d.skip(2) =~= rest);
                assert(s.subrange(i + 2, i + 2 + rest.len()) =~= sub.skip(2));
            }
            law_quoted_text_reads_back(s, i + 2, t.skip(1), q);
        } else {
            assert(d.len() == rest.len() + 1);
            assert(s[i] == sub[0]);
            assert(d[0] == t[0]);
            assert(s.subrange(i + 1, i + 1 + rest.len()) =~= rest) by {
                assert(d.skip(1) =~= rest);
                assert(s.subrange(i + 1, i + 1 + rest.len()) =~= sub.skip(1));
            }
            law_quoted_text_reads_back(s, i + 1, t.skip(1), q);
        }
        assert(seq![t[0]] + t.skip(1) =~= t);
    }
}

} // verus!

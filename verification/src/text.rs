//! Small text builders with exact contracts: decimal and hexadecimal numerals, and
//! equality of string slices.
use vstd::prelude::*;
#[allow(unused_imports)]
use vstd::arithmetic::power::{lemma_pow0, pow};

verus! {

/// `String::push` appends the given character to the end of the string.
pub assume_specification[ String::push ](s: &mut String, c: char)
    ensures
        final(s)@ == old(s)@.push(c),
;

/// Whether two string slices hold the same characters.
pub fn text_eq(a: &str, b: &str) -> (r: bool)
    ensures
        r == (a@ == b@),
{
    a.to_owned() == b.to_owned()
}

/// The character of a digit below sixteen, in lower case.
pub open spec fn digit_char(d: nat) -> char {
    if d < 10 {
        ('0' as u8 + d) as char
    } else {
        ('a' as u8 + (d - 10)) as char
    }
}

/// The decimal numeral of `n`, without leading zeros.
pub open spec fn dec_text(n: nat) -> Seq<char>
    decreases n,
{
    if n < 10 {
        seq![digit_char(n)]
    } else {
        dec_text(n / 10).push(digit_char(n % 10))
    }
}

/// The decimal numeral of a signed number.
pub open spec fn int_text(n: int) -> Seq<char> {
    if n < 0 {
        "-"@ + dec_text((-n) as nat)
    } else {
        dec_text(n as nat)
    }
}

/// The lowest `width` hexadecimal digits of `n`, most significant first.
pub open spec fn hex_digits(n: nat, width: nat) -> Seq<char>
    decreases width,
{
    if width == 0 {
        Seq::empty()
    } else {
        hex_digits(n / 16, (width - 1) as nat).push(digit_char(n % 16))
    }
}

/// How many hexadecimal digits `n` has, at least `min`.
pub open spec fn hex_width(n: nat, min: nat) -> nat
    decreases n,
{
    if n < 16 {
        if min < 1 {
            1
        } else {
            min
        }
    } else {
        let rest = hex_width(n / 16, if min == 0 { 0 } else { (min - 1) as nat });
        rest + 1
    }
}

/// `n` in lower-case hexadecimal, padded with zeros to at least `min` digits.
pub open spec fn hex_text(n: nat, min: nat) -> Seq<char> {
    hex_digits(n, hex_width(n, min))
}

fn digit(d: u32) -> (c: char)
    requires
        d < 16,
    ensures
        c == digit_char(d as nat),
{
    if d < 10 {
        (48u8 + (d as u8)) as char
    } else {
        (97u8 + ((d - 10) as u8)) as char
    }
}

/// Appends the decimal numeral of `n`.
pub fn push_dec(s: &mut String, n: u64)
    ensures
        final(s)@ == old(s)@ + dec_text(n as nat),
    decreases n,
{
    if n < 10 {
        s.push(digit(n as u32));
        assert(s@ =~= old(s)@ + dec_text(n as nat));
    } else {
        push_dec(s, n / 10);
        s.push(digit((n % 10) as u32));
        assert(s@ =~= old(s)@ + dec_text(n as nat));
    }
}

/// Appends the decimal numeral of a signed number.
pub fn push_int(s: &mut String, n: i64)
    ensures
        final(s)@ == old(s)@ + int_text(n as int),
{
    if n < 0 {
        s.append("-");
        let m: u64 = if n == i64::MIN {
            0x8000_0000_0000_0000
        } else {
            (-n) as u64
        };
        push_dec(s, m);
        assert(s@ =~= old(s)@ + int_text(n as int));
    } else {
        push_dec(s, n as u64);
    }
}

proof fn lemma_hex_width_bound(n: nat, min: nat)
    ensures
        hex_width(n, min) <= min + n + 1,
    decreases n,
{
    if n >= 16 {
        lemma_hex_width_bound(n / 16, if min == 0 { 0 } else { (min - 1) as nat });
    }
}

fn hex_len(n: u64, min: u32) -> (w: u64)
    ensures
        w == hex_width(n as nat, min as nat),
    decreases n,
{
    if n < 16 {
        if min < 1 {
            1
        } else {
            min as u64
        }
    } else {
        let m: u32 = if min == 0 {
            0
        } else {
            min - 1
        };
        let r: u64 = hex_len(n / 16, m);
        proof {
            lemma_hex_width_bound((n / 16) as nat, m as nat);
        }
        r + 1
    }
}

fn push_hex_digits(s: &mut String, n: u64, width: u64)
    ensures
        final(s)@ == old(s)@ + hex_digits(n as nat, width as nat),
    decreases width,
{
    if width == 0 {
        assert(s@ =~= old(s)@ + hex_digits(n as nat, width as nat));
    } else {
        push_hex_digits(s, n / 16, width - 1);
        s.push(digit((n % 16) as u32));
        assert(s@ =~= old(s)@ + hex_digits(n as nat, width as nat));
    }
}

/// Appends `n` in hexadecimal with at least `min` digits.
pub fn push_hex(s: &mut String, n: u64, min: u32)
    ensures
        final(s)@ == old(s)@ + hex_text(n as nat, min as nat),
{
    let w: u64 = hex_len(n, min);
    push_hex_digits(s, n, w);
}

/// The characters of a text.
pub fn chars_of(s: &str) -> (v: Vec<char>)
    ensures
        v@ == s@,
{
    let mut v: Vec<char> = Vec::new();
    for c in it: s.chars()
        invariant
            it.seq() == s@,
            v@ == s@.take(it.index() as int),
    {
        v.push(c);
    }
    assert(v@ =~= s@);
    v
}

/// White space, as Unicode lists it.
pub open spec fn white(c: char) -> bool {
    let n = c as u32;
    9 <= n <= 13 || n == 32 || n == 0x85 || n == 0xA0 || n == 0x1680 || 0x2000 <= n <= 0x200A || n == 0x2028 || n
        == 0x2029 || n == 0x202F || n == 0x205F || n == 0x3000
}

/// Whether a character is white space.
pub fn is_white(c: char) -> (r: bool)
    ensures
        r == white(c),
{
    let n: u32 = c as u32;
    (9 <= n && n <= 13) || n == 32 || n == 0x85 || n == 0xA0 || n == 0x1680 || (0x2000 <= n && n <= 0x200A) || n
        == 0x2028 || n == 0x2029 || n == 0x202F || n == 0x205F || n == 0x3000
}

/// `t` without the white space at both ends.
pub open spec fn trim_of(s: Seq<char>, t: Seq<char>) -> bool {
    exists|a: int, b: int|
        0 <= a <= b <= s.len() && t == #[trigger] s.subrange(a, b) && (forall|i: int| 0 <= i < a ==> white(#[trigger] s[i]))
            && (forall|i: int| b <= i < s.len() ==> white(#[trigger] s[i])) && (a < b ==> !white(s[a]) && !white(s[b - 1]))
}

/// A decimal digit.
pub open spec fn dec_digit(c: char) -> bool {
    '0' <= c <= '9'
}

/// The number that decimal digits write.
pub open spec fn decimal(s: Seq<char>) -> nat
    decreases s.len(),
{
    if s.len() == 0 {
        0
    } else {
        10 * decimal(s.drop_last()) + (s.last() as u32 - '0' as u32) as nat
    }
}

/// Nothing but decimal digits.
pub open spec fn all_digits(s: Seq<char>) -> bool {
    forall|i: int| 0 <= i < s.len() ==> dec_digit(#[trigger] s[i])
}

/// A text without its leading plus sign.
pub open spec fn unsigned(s: Seq<char>) -> Seq<char> {
    if s.len() > 0 && s[0] == '+' {
        s.skip(1)
    } else {
        s
    }
}

/// One or more decimal digits, with an optional plus sign, that write a number below 256.
pub open spec fn byte_number(s: Seq<char>) -> Option<u8> {
    let d = unsigned(s);
    if d.len() > 0 && all_digits(d) && decimal(d) < 256 {
        Some(decimal(d) as u8)
    } else {
        None
    }
}

pub(crate) proof fn lemma_decimal_grows(s: Seq<char>, k: int)
    requires
        0 <= k <= s.len(),
        all_digits(s),
    ensures
        decimal(s.take(k)) <= decimal(s),
    decreases s.len(),
{
    if k < s.len() {
        lemma_decimal_grows(s.drop_last(), k);
        assert(s.drop_last().take(k) =~= s.take(k));
    } else {
        assert(s.take(k) =~= s);
    }
}

/// Reads a number below 256 from `chars[from..to]`.
fn byte_in(chars: &Vec<char>, from: usize, to: usize) -> (r: Option<u8>)
    requires
        from <= to <= chars@.len(),
    ensures
        r == byte_number(chars@.subrange(from as int, to as int)),
{
    let ghost s = chars@.subrange(from as int, to as int);
    let mut i: usize = from;
    if from < to && chars[from] == '+' {
        i = from + 1;
    }
    let start: usize = i;
    let ghost d = unsigned(s);
    assert(d =~= chars@.subrange(start as int, to as int));
    if start == to {
        return None;
    }
    let mut n: u32 = 0;
    while i < to
        invariant
            start <= i <= to <= chars@.len(),
            s == chars@.subrange(from as int, to as int),
            d == unsigned(s),
            d == chars@.subrange(start as int, to as int),
            n == decimal(d.take(i - start)),
            n < 256,
            forall|k: int| 0 <= k < i - start ==> dec_digit(#[trigger] d[k]),
        decreases to - i,
    {
        let c: char = chars[i];
        assert(d[i - start] == c);
        if !('0' <= c && c <= '9') {
            return None;
        }
        assert(d.take(i - start + 1).drop_last() =~= d.take(i - start));
        n = 10 * n + (c as u32 - '0' as u32);
        if n >= 256 {
            proof {
                if all_digits(d) {
                    lemma_decimal_grows(d, i - start + 1);
                }
            }
            return None;
        }
        i += 1;
    }
    assert(d.take(i - start) =~= d);
    Some(n as u8)
}

/// What a text says once trimmed, if it is a number below 256.
pub open spec fn byte_said(s: Seq<char>, r: Option<u8>) -> bool {
    exists|t: Seq<char>| #[trigger] trim_of(s, t) && r == byte_number(t)
}

/// Reads a number below 256, with white space around it.
pub fn read_byte(s: &str) -> (r: Option<u8>)
    ensures
        byte_said(s@, r),
{
    let chars: Vec<char> = chars_of(s);
    let mut a: usize = 0;
    while a < chars.len() && is_white(chars[a])
        invariant
            a <= chars@.len(),
            forall|i: int| 0 <= i < a ==> white(#[trigger] chars@[i]),
        decreases chars@.len() - a,
    {
        a += 1;
    }
    let mut b: usize = chars.len();
    while b > a && is_white(chars[b - 1])
        invariant
            a <= b <= chars@.len(),
            forall|i: int| b <= i < chars@.len() ==> white(#[trigger] chars@[i]),
        decreases b,
    {
        b -= 1;
    }
    assert(trim_of(s@, s@.subrange(a as int, b as int)));
    byte_in(&chars, a, b)
}

/// Trimming gives one result.
pub proof fn law_trim_is_unique(s: Seq<char>, t: Seq<char>, u: Seq<char>)
    requires
        trim_of(s, t),
        trim_of(s, u),
    ensures
        t == u,
{
    let (a, b) = choose|a: int, b: int|
        0 <= a <= b <= s.len() && t == #[trigger] s.subrange(a, b) && (forall|i: int| 0 <= i < a ==> white(#[trigger] s[i]))
            && (forall|i: int| b <= i < s.len() ==> white(#[trigger] s[i])) && (a < b ==> !white(s[a]) && !white(s[b - 1]));
    let (c, d) = choose|c: int, d: int|
        0 <= c <= d <= s.len() && u == #[trigger] s.subrange(c, d) && (forall|i: int| 0 <= i < c ==> white(#[trigger] s[i]))
            && (forall|i: int| d <= i < s.len() ==> white(#[trigger] s[i])) && (c < d ==> !white(s[c]) && !white(s[d - 1]));
    if a < b && c < d {
        assert(a == c);
        assert(b == d);
    } else if a < b {
        assert(white(s[a]));
    } else if c < d {
        assert(white(s[c]));
    }
    assert(t =~= u);
}

/// Digits behind digits: the number that both write is that of the first, moved up by as many places as
/// the second has, and that of the second.
pub proof fn law_decimals_have_places(a: Seq<char>, b: Seq<char>)
    ensures
        decimal(a + b) == decimal(a) * pow(10, b.len()) + decimal(b),
    decreases b.len(),
{
    reveal(pow);
    if b.len() == 0 {
        assert(a + b =~= a);
        lemma_pow0(10);
    } else {
        law_decimals_have_places(a, b.drop_last());
        assert((a + b).drop_last() =~= a + b.drop_last());
        let n = (b.len() - 1) as nat;
        let x = decimal(a) as int;
        let p = pow(10, n);
        assert(pow(10, n + 1) == 10 * p);
        assert(10 * (x * p) == x * (10 * p)) by (nonlinear_arith);
    }
}

/// A digit alone writes its value; nothing writes zero.
pub proof fn law_one_digit(c: char)
    requires
        '0' <= c <= '9',
    ensures
        decimal(seq![c]) == c as int - '0' as int,
        decimal(Seq::empty()) == 0,
{
    let s = seq![c];
    assert(s.drop_last() =~= Seq::<char>::empty());
    assert(s.last() == c);
    assert(decimal(s.drop_last()) == 0);
    assert(decimal(s) == 10 * decimal(s.drop_last()) + (s.last() as u32 - '0' as u32) as nat);
}

/// A numeral writes its number: in digits only, without a leading zero, and it reads back.
pub proof fn law_numerals_read_back(n: nat)
    ensures
        dec_text(n).len() > 0,
        all_digits(dec_text(n)),
        decimal(dec_text(n)) == n,
        n > 0 ==> dec_text(n)[0] != '0',
    decreases n,
{
    let t = dec_text(n);
    if n < 10 {
        assert(t.drop_last() =~= Seq::<char>::empty());
        assert(decimal(Seq::<char>::empty()) == 0);
    } else {
        law_numerals_read_back(n / 10);
        assert(t.drop_last() =~= dec_text(n / 10));
        assert(t[0] == dec_text(n / 10)[0]);
    }
}

/// A number below 256 is read from its numeral, with or without a plus sign; a larger one is not read.
pub proof fn law_bytes_are_read(n: nat)
    ensures
        byte_number(dec_text(n)) == if n < 256 {
            Some(n as u8)
        } else {
            None::<u8>
        },
        byte_number(seq!['+'] + dec_text(n)) == byte_number(dec_text(n)),
        byte_number(Seq::empty()) is None,
        byte_number(seq!['-'] + dec_text(n)) is None,
{
    law_numerals_read_back(n);
    let t = dec_text(n);
    assert(dec_digit(t[0]));
    assert((seq!['+'] + t).skip(1) =~= t);
    assert(!dec_digit((seq!['-'] + t)[0]));
}

} // verus!

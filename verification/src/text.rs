//! Text of numbers: digits, decimal and hex rendering, and integer parsing.

use vstd::prelude::*;

verus! {

/// `String::push` appends one character.
pub assume_specification[ String::push ](s: &mut String, c: char)
    ensures
        final(s)@ == old(s)@.push(c),
;

/// The lower-case digit of a value below 16.
pub open spec fn digit(v: nat) -> char {
    if v < 10 { (0x30 + v) as char } else { (0x57 + v) as char }
}

/// The lower-case digit of a value below 16.
pub fn digit_char(v: u32) -> (c: char)
    requires
        v < 16,
    ensures
        c == digit(v as nat),
{
    if v < 10 {
        (0x30u8 + v as u8) as char
    } else {
        (0x57u8 + v as u8) as char
    }
}

/// The digits of `v` in base `radix`, most significant first, with no leading
/// zero; `0` for zero.
pub open spec fn digits_of(v: nat, radix: nat) -> Seq<char>
    decreases v,
{
    if radix < 2 {
        Seq::empty()
    } else if v < radix {
        seq![digit(v)]
    } else {
        proof {
            assert(v / radix < v) by (nonlinear_arith)
                requires
                    2 <= radix <= v,
            ;
        }
        digits_of(v / radix, radix).push(digit(v % radix))
    }
}

/// The decimal digits of `v`.
pub open spec fn decimal(v: nat) -> Seq<char> {
    digits_of(v, 10)
}

/// The hex digits of `v`, without prefix.
pub open spec fn hexadecimal(v: nat) -> Seq<char> {
    digits_of(v, 16)
}

/// Appends the digits of `v` in base `radix`.
pub fn push_digits(s: &mut String, v: u64, radix: u64)
    requires
        2 <= radix <= 16,
    ensures
        final(s)@ == old(s)@ + digits_of(v as nat, radix as nat),
    decreases v,
{
    if v >= radix {
        assert(v / radix < v) by (nonlinear_arith)
            requires
                2 <= radix <= v,
        ;
        push_digits(s, v / radix, radix);
    }
    assert(v % radix < radix) by (nonlinear_arith)
        requires
            radix > 0,
    ;
    s.push(digit_char((v % radix) as u32));
    assert(v < radix ==> v % radix == v) by (nonlinear_arith)
        requires
            radix > 0,
    ;
    assert(s@ =~= old(s)@ + digits_of(v as nat, radix as nat));
}

/// Appends the decimal digits of `v`.
pub fn push_decimal(s: &mut String, v: u64)
    ensures
        final(s)@ == old(s)@ + decimal(v as nat),
{
    push_digits(s, v, 10)
}

/// Appends `0x` and the hex digits of `v`.
pub fn push_hex(s: &mut String, v: u64)
    ensures
        final(s)@ == old(s)@ + "0x"@ + hexadecimal(v as nat),
{
    s.append("0x");
    push_digits(s, v, 16)
}

/// The characters of a string.
pub fn chars_of(s: &str) -> (r: Vec<char>)
    ensures
        r@ == s@,
{
    let mut out: Vec<char> = Vec::new();
    for c in it: s.chars()
        invariant
            out@ == it.seq().take(it.index() as int),
            it.seq() == s@,
    {
        out.push(c);
        assert(out@ =~= it.seq().take(it.index() + 1));
    }
    assert(out@ =~= s@);
    out
}

/// The string of a run of characters.
pub fn string_of(chars: &[char]) -> (s: String)
    ensures
        s@ == chars@,
{
    let mut s = String::new();
    let n: usize = chars.len();
    let mut i: usize = 0;
    while i < n
        invariant
            i <= n,
            n == chars@.len(),
            s@ == chars@.take(i as int),
        decreases n - i,
    {
        s.push(chars[i]);
        i = i + 1;
        assert(s@ =~= chars@.take(i as int));
    }
    assert(s@ =~= chars@);
    s
}

// ---------------------------------------------------------------------------
// Parsing
// ---------------------------------------------------------------------------

/// Unicode White_Space: what surrounds a value without belonging to it.
pub open spec fn is_white(c: char) -> bool {
    ||| '\u{9}' <= c <= '\u{d}'
    ||| c == '\u{20}'
    ||| c == '\u{85}'
    ||| c == '\u{a0}'
    ||| c == '\u{1680}'
    ||| '\u{2000}' <= c <= '\u{200a}'
    ||| c == '\u{2028}'
    ||| c == '\u{2029}'
    ||| c == '\u{202f}'
    ||| c == '\u{205f}'
    ||| c == '\u{3000}'
}

/// Whether a character is Unicode White_Space.
pub fn is_whitespace(c: char) -> (r: bool)
    ensures
        r == is_white(c),
{
    ('\u{9}' <= c && c <= '\u{d}') || c == '\u{20}' || c == '\u{85}' || c == '\u{a0}' || c
        == '\u{1680}' || ('\u{2000}' <= c && c <= '\u{200a}') || c == '\u{2028}' || c
        == '\u{2029}' || c == '\u{202f}' || c == '\u{205f}' || c == '\u{3000}'
}

/// Without leading white space.
pub open spec fn trim_start(s: Seq<char>) -> Seq<char>
    decreases s.len(),
{
    if s.len() > 0 && is_white(s[0]) {
        trim_start(s.drop_first())
    } else {
        s
    }
}

/// Without trailing white space.
pub open spec fn trim_end(s: Seq<char>) -> Seq<char>
    decreases s.len(),
{
    if s.len() > 0 && is_white(s.last()) {
        trim_end(s.drop_last())
    } else {
        s
    }
}

/// Without leading and trailing white space.
pub open spec fn trimmed(s: Seq<char>) -> Seq<char> {
    trim_end(trim_start(s))
}

/// The run of characters without leading and trailing white space.
pub fn trim(s: &[char]) -> (r: &[char])
    ensures
        r@ == trimmed(s@),
{
    let n: usize = s.len();
    let mut from: usize = 0;
    assert(s@.skip(0) =~= s@);
    while from < n && is_whitespace(s[from])
        invariant
            from <= n,
            n == s@.len(),
            trim_start(s@) == trim_start(s@.skip(from as int)),
        decreases n - from,
    {
        assert(s@.skip(from as int).drop_first() =~= s@.skip(from + 1));
        from = from + 1;
    }
    let ghost front = s@.skip(from as int);
    assert(trim_start(s@) == front);
    let mut to: usize = n;
    assert(s@.subrange(from as int, n as int) =~= front);
    while to > from && is_whitespace(s[to - 1])
        invariant
            from <= to <= n,
            n == s@.len(),
            trim_end(front) == trim_end(s@.subrange(from as int, to as int)),
        decreases to,
    {
        assert(s@.subrange(from as int, to as int).drop_last() =~= s@.subrange(
            from as int,
            to - 1,
        ));
        to = to - 1;
    }
    vstd::slice::slice_subrange(s, from, to)
}

/// Why a number could not be parsed.
#[derive(Debug, Clone, Copy, PartialEq, Eq, Structural)]
pub enum IntError {
    Empty,
    InvalidDigit,
    TooLarge,
}

/// The value of a digit in a base up to 16.
pub open spec fn digit_value(c: char, radix: nat) -> Option<nat> {
    let v = if '0' <= c <= '9' {
        (c as nat - '0' as nat) as nat
    } else if 'a' <= c <= 'f' {
        (c as nat - 'a' as nat + 10) as nat
    } else if 'A' <= c <= 'F' {
        (c as nat - 'A' as nat + 10) as nat
    } else {
        16nat
    };
    if v < radix { Some(v) } else { None }
}

/// Reading digits from the left onto `acc`; the first digit that is none, or
/// that takes the value over `max`, ends it.
pub open spec fn scan_digits(s: Seq<char>, radix: nat, max: nat, acc: nat) -> Result<nat, IntError>
    decreases s.len(),
{
    if s.len() == 0 {
        Ok(acc)
    } else {
        match digit_value(s[0], radix) {
            None => Err(IntError::InvalidDigit),
            Some(d) => if acc * radix + d > max {
                Err(IntError::TooLarge)
            } else {
                scan_digits(s.drop_first(), radix, max, acc * radix + d)
            },
        }
    }
}

/// An unsigned number: digits, with an optional plus sign before them.
pub open spec fn parsed(s: Seq<char>, radix: nat, max: nat) -> Result<nat, IntError> {
    if s.len() == 0 {
        Err(IntError::Empty)
    } else if s[0] == '+' {
        if s.len() == 1 {
            Err(IntError::InvalidDigit)
        } else {
            scan_digits(s.drop_first(), radix, max, 0)
        }
    } else {
        scan_digits(s, radix, max, 0)
    }
}

/// The value of a digit, or 16 where it is none.
fn digit_of(c: char) -> (v: u64)
    ensures
        v <= 16,
        forall|radix: nat| radix <= 16 ==> #[trigger] digit_value(c, radix) == (if v < radix {
            Some(v as nat)
        } else {
            None
        }),
{
    let u: u32 = c as u32;
    if '0' <= c && c <= '9' {
        (u - 48) as u64
    } else if 'a' <= c && c <= 'f' {
        (u - 97 + 10) as u64
    } else if 'A' <= c && c <= 'F' {
        (u - 65 + 10) as u64
    } else {
        16
    }
}

/// Parses an unsigned number of at most `max` in base `radix`.
pub fn parse_uint(s: &[char], radix: u64, max: u64) -> (r: Result<u64, IntError>)
    requires
        2 <= radix <= 16,
    ensures
        match r {
            Ok(v) => parsed(s@, radix as nat, max as nat) == Ok::<nat, IntError>(v as nat),
            Err(e) => parsed(s@, radix as nat, max as nat) == Err::<nat, IntError>(e),
        },
        r matches Ok(v) ==> v <= max,
{
    let n: usize = s.len();
    if n == 0 {
        return Err(IntError::Empty);
    }
    let mut i: usize = 0;
    if s[0] == '+' {
        if n == 1 {
            return Err(IntError::InvalidDigit);
        }
        i = 1;
    }
    let mut acc: u64 = 0;
    assert(s@.skip(0) =~= s@);
    assert(s@.skip(1) =~= s@.drop_first());
    let ghost whole = parsed(s@, radix as nat, max as nat);
    while i < n
        invariant
            i <= n,
            n == s@.len(),
            2 <= radix <= 16,
            acc <= max,
            scan_digits(s@.skip(i as int), radix as nat, max as nat, acc as nat) == whole,
            whole == parsed(s@, radix as nat, max as nat),
        decreases n - i,
    {
        let d: u64 = digit_of(s[i]);
        assert(s@.skip(i as int)[0] == s@[i as int]);
        assert(s@.skip(i as int).drop_first() =~= s@.skip(i + 1));
        assert(digit_value(s@[i as int], radix as nat) == (if d < radix {
            Some(d as nat)
        } else {
            None
        }));
        if d >= radix {
            return Err(IntError::InvalidDigit);
        }
        assert(0 <= acc * radix <= u64::MAX * 16) by (nonlinear_arith)
            requires
                0 <= acc <= u64::MAX,
                2 <= radix <= 16,
        ;
        let next: u128 = (acc as u128) * (radix as u128) + d as u128;
        if next > max as u128 {
            return Err(IntError::TooLarge);
        }
        acc = next as u64;
        i = i + 1;
    }
    Ok(acc)
}

/// The position of the first `c`, if any.
pub open spec fn first_at(s: Seq<char>, c: char, i: int) -> bool {
    &&& 0 <= i < s.len()
    &&& s[i] == c
    &&& forall|j: int| 0 <= j < i ==> #[trigger] s[j] != c
}

/// The position of the first `c`, if any.
pub fn find_char(s: &[char], c: char) -> (r: Option<usize>)
    ensures
        match r {
            Some(i) => first_at(s@, c, i as int),
            None => !s@.contains(c),
        },
{
    let n: usize = s.len();
    let mut i: usize = 0;
    while i < n
        invariant
            i <= n,
            n == s@.len(),
            forall|j: int| 0 <= j < i ==> #[trigger] s@[j] != c,
        decreases n - i,
    {
        if s[i] == c {
            return Some(i);
        }
        i = i + 1;
    }
    None
}

/// Whether two runs of characters are the same.
pub fn chars_equal(a: &[char], b: &[char]) -> (r: bool)
    ensures
        r == (a@ == b@),
{
    if a.len() != b.len() {
        return false;
    }
    let n: usize = a.len();
    let mut i: usize = 0;
    while i < n
        invariant
            i <= n,
            n == a@.len(),
            n == b@.len(),
            forall|k: int| 0 <= k < i ==> a@[k] == b@[k],
        decreases n - i,
    {
        if a[i] != b[i] {
            return false;
        }
        i = i + 1;
    }
    assert(a@ =~= b@);
    true
}

/// Whether two texts are the same.
pub fn same_text(a: &str, b: &str) -> (r: bool)
    ensures
        r == (a@ == b@),
{
    let x = chars_of(a);
    let y = chars_of(b);
    chars_equal(x.as_slice(), y.as_slice())
}

/// Whether `s` starts with `prefix`.
pub fn starts_with(s: &[char], prefix: &str) -> (r: bool)
    ensures
        r == (prefix@.len() <= s@.len() && s@.take(prefix@.len() as int) == prefix@),
{
    let p = chars_of(prefix);
    if p.len() > s.len() {
        return false;
    }
    let front = vstd::slice::slice_subrange(s, 0, p.len());
    assert(front@ =~= s@.take(prefix@.len() as int));
    chars_equal(front, p.as_slice())
}

/// An optional text as a value of the model.
pub open spec fn opt_view(o: Option<String>) -> Option<Seq<char>> {
    match o {
        Some(s) => Some(s@),
        None => None,
    }
}

/// What std's `Debug` writes for this text.
pub uninterp spec fn debug_of(s: Seq<char>) -> Seq<char>;

/// The text as std's `Debug` for `str` writes it: in double quotes, with quotes,
/// backslashes and unprintable characters escaped. It depends on the text alone;
/// which characters count as unprintable is left to std.
#[verifier::external_body]
pub(crate) fn quoted(s: &str) -> (r: String)
    ensures
        r@ == debug_of(s@),
{
    format!("{s:?}")
}

/// A number's digits read back as the number.
pub proof fn law_digits_parse_back(v: nat, radix: nat, max: nat)
    requires
        2 <= radix <= 16,
        v <= max,
    ensures
        parsed(digits_of(v, radix), radix, max) == Ok::<nat, IntError>(v),
{
    lemma_scan_digits(v, radix, max, Seq::empty());
    lemma_digits_front(v, radix);
    assert(digits_of(v, radix) + Seq::<char>::empty() =~= digits_of(v, radix));
}

/// A rendered digit has its value, and is no plus sign.
proof fn lemma_digit(d: nat, radix: nat)
    requires
        d < radix <= 16,
    ensures
        digit_value(digit(d), radix) == Some(d),
        digit(d) != '+',
{
}

proof fn lemma_digits_front(v: nat, radix: nat)
    requires
        2 <= radix <= 16,
    ensures
        digits_of(v, radix).len() > 0,
        digits_of(v, radix)[0] != '+',
    decreases v,
{
    if v < radix {
        lemma_digit(v, radix);
    } else {
        assert(v / radix < v) by (nonlinear_arith)
            requires
                2 <= radix <= v,
        ;
        lemma_digits_front(v / radix, radix);
    }
}

/// Digits followed by more text are scanned as their value, then the text.
proof fn lemma_scan_digits(v: nat, radix: nat, max: nat, rest: Seq<char>)
    requires
        2 <= radix <= 16,
        v <= max,
    ensures
        scan_digits(digits_of(v, radix) + rest, radix, max, 0) == scan_digits(rest, radix, max, v),
    decreases v,
{
    let s = digits_of(v, radix) + rest;
    if v < radix {
        lemma_digit(v, radix);
        assert(s.drop_first() =~= rest);
        assert(0 * radix + v == v);
    } else {
        let q = v / radix;
        let d = v % radix;
        assert(q < v && q * radix + d == v && d < radix) by (nonlinear_arith)
            requires
                2 <= radix <= v,
                q == v / radix,
                d == v % radix,
        ;
        lemma_digit(d, radix);
        let tail = seq![digit(d)] + rest;
        lemma_scan_digits(q, radix, max, tail);
        assert(s =~= digits_of(q, radix) + tail);
        assert(tail.drop_first() =~= rest);
    }
}

} // verus!

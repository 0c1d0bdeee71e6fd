//! Character-level helpers shared by the parsers and message builders.
//!
//! Text is handled as `Seq<char>` in specifications and as `Vec<char>` in
//! executable code; `String` values are built by appending characters.

use vstd::prelude::*;

verus! {

// ------------------------------------------------------------------ spec model

/// The Unicode `White_Space` characters: what `char::is_whitespace` (and so
/// `str::trim`) treats as whitespace.
pub open spec fn is_ws(c: char) -> bool {
    ||| ('\u{9}' <= c && c <= '\u{d}')
    ||| c == ' '
    ||| c == '\u{85}'
    ||| c == '\u{a0}'
    ||| c == '\u{1680}'
    ||| ('\u{2000}' <= c && c <= '\u{200a}')
    ||| c == '\u{2028}'
    ||| c == '\u{2029}'
    ||| c == '\u{202f}'
    ||| c == '\u{205f}'
    ||| c == '\u{3000}'
}

/// `s` without its leading whitespace.
pub open spec fn trim_start(s: Seq<char>) -> Seq<char>
    decreases s.len(),
{
    if s.len() > 0 && is_ws(s[0]) {
        trim_start(s.drop_first())
    } else {
        s
    }
}

/// `s` without its trailing whitespace.
pub open spec fn trim_end(s: Seq<char>) -> Seq<char>
    decreases s.len(),
{
    if s.len() > 0 && is_ws(s.last()) {
        trim_end(s.drop_last())
    } else {
        s
    }
}

/// `s` without leading and trailing whitespace, as `str::trim` returns it.
pub open spec fn trim(s: Seq<char>) -> Seq<char> {
    trim_end(trim_start(s))
}

/// `s` without the leading repetitions of `c`, as `str::trim_start_matches(c)`.
pub open spec fn strip_leading(s: Seq<char>, c: char) -> Seq<char>
    decreases s.len(),
{
    if s.len() > 0 && s[0] == c {
        strip_leading(s.drop_first(), c)
    } else {
        s
    }
}

/// Index of the first occurrence of `c` in `s` at or after `from`.
pub open spec fn find_from(s: Seq<char>, c: char, from: int) -> Option<int>
    decreases s.len() - from,
{
    if from < 0 || from >= s.len() {
        None
    } else if s[from] == c {
        Some(from)
    } else {
        find_from(s, c, from + 1)
    }
}

/// Index of the first occurrence of `c` in `s`.
pub open spec fn find_char(s: Seq<char>, c: char) -> Option<int> {
    find_from(s, c, 0)
}

/// Index of the last occurrence of `c` in `s.take(upto)`.
pub open spec fn rfind_upto(s: Seq<char>, c: char, upto: int) -> Option<int>
    decreases upto,
{
    if upto <= 0 || upto > s.len() {
        None
    } else if s[upto - 1] == c {
        Some(upto - 1)
    } else {
        rfind_upto(s, c, upto - 1)
    }
}

/// Decimal digit character for `d < 10`.
pub open spec fn digit(d: nat) -> char {
    if d == 0 { '0' } else if d == 1 { '1' } else if d == 2 { '2' } else if d == 3 { '3' }
    else if d == 4 { '4' } else if d == 5 { '5' } else if d == 6 { '6' } else if d == 7 { '7' }
    else if d == 8 { '8' } else { '9' }
}

/// Lower-case hexadecimal digit character for `d < 16`.
pub open spec fn hex_digit(d: nat) -> char {
    if d < 10 { digit(d) } else if d == 10 { 'a' } else if d == 11 { 'b' } else if d == 12 { 'c' }
    else if d == 13 { 'd' } else if d == 14 { 'e' } else { 'f' }
}

/// Decimal rendering of `n`, as `format!("{}", n)`.
pub open spec fn dec(n: nat) -> Seq<char>
    decreases n,
{
    if n < 10 {
        seq![digit(n)]
    } else {
        dec(n / 10).push(digit(n % 10))
    }
}

/// A decimal rendering has at least one digit.
pub proof fn lemma_dec_nonempty(n: nat)
    ensures
        dec(n).len() >= 1,
    decreases n,
{
    if n >= 10 {
        lemma_dec_nonempty(n / 10);
    }
}

/// Different numbers have different decimal renderings.
pub proof fn lemma_dec_injective(a: nat, b: nat)
    requires
        dec(a) == dec(b),
    ensures
        a == b,
    decreases a,
{
    if a < 10 && b < 10 {
        assert(dec(a)[0] == digit(a));
        assert(dec(b)[0] == digit(b));
    } else if a < 10 {
        lemma_dec_nonempty(b / 10);
        assert(dec(b).len() >= 2);
    } else if b < 10 {
        lemma_dec_nonempty(a / 10);
        assert(dec(a).len() >= 2);
    } else {
        assert(dec(a).last() == digit(a % 10));
        assert(dec(b).last() == digit(b % 10));
        assert(a % 10 == b % 10);
        assert(dec(a / 10) == dec(a).drop_last());
        assert(dec(b / 10) == dec(b).drop_last());
        lemma_dec_injective(a / 10, b / 10);
    }
}

/// Lower-case hexadecimal rendering of `n`, as `format!("{:x}", n)`.
pub open spec fn hex(n: nat) -> Seq<char>
    decreases n,
{
    if n < 16 {
        seq![hex_digit(n)]
    } else {
        hex(n / 16).push(hex_digit(n % 16))
    }
}

/// ASCII upper-casing of one character, as `char::to_ascii_uppercase`.
pub open spec fn ascii_upper(c: char) -> char {
    if 'a' <= c && c <= 'z' {
        ((c as u32) - 32) as char
    } else {
        c
    }
}

/// Unicode lower-casing of a whole string, as `str::to_lowercase` returns it.
pub uninterp spec fn lowercase(s: Seq<char>) -> Seq<char>;

// ------------------------------------------------------------------ std wrappers

/// `String::push`: appends one character.
#[verifier::external_body]
pub(crate) fn push_char(s: &mut String, c: char)
    ensures
        final(s)@ == old(s)@.push(c),
{
    s.push(c);
}

/// `str::to_lowercase`. Its result, fixed by the Unicode tables of the
/// standard library, is named `lowercase`; nothing more of it is stated.
#[verifier::external_body]
pub(crate) fn to_lowercase(s: &str) -> (res: String)
    ensures
        res@ == lowercase(s@),
{
    s.to_lowercase()
}

/// `char::from_u32`, which the standard library documents as `Some` exactly
/// for Unicode scalar values.
#[verifier::external_body]
pub(crate) fn char_from_u32(u: u32) -> (res: Option<char>)
    ensures
        vstd::utf8::is_scalar(u) ==> res == Some(u as char),
        !vstd::utf8::is_scalar(u) ==> res is None,
{
    char::from_u32(u)
}

/// `String::from_utf8`, which the standard library documents as succeeding
/// exactly on well-formed UTF-8, with the decoded characters.
#[verifier::external_body]
pub(crate) fn string_from_utf8(bytes: Vec<u8>) -> (res: Option<String>)
    ensures
        res is Some <==> vstd::utf8::valid_utf8(bytes@),
        res matches Some(s) ==> s@ == vstd::utf8::decode_utf8(bytes@),
{
    String::from_utf8(bytes).ok()
}

// ------------------------------------------------------------------ executable helpers

/// Collects the characters of `s` into a vector.
pub fn chars_of(s: &str) -> (res: Vec<char>)
    ensures
        res@ == s@,
{
    broadcast use vstd::string::group_string_axioms;
    let mut out: Vec<char> = Vec::new();
    for c in it: s.chars()
        invariant
            out@ == it.seq().take(it.index()),
            it.seq() == s@,
    {
        out.push(c);
    }
    out
}

/// Appends `chars[from..to]` to `s`.
pub fn push_chars(s: &mut String, chars: &Vec<char>, from: usize, to: usize)
    requires
        from <= to <= chars.len(),
    ensures
        final(s)@ == old(s)@ + chars@.subrange(from as int, to as int),
{
    let mut i = from;
    while i < to
        invariant
            from <= i <= to <= chars.len(),
            s@ == old(s)@ + chars@.subrange(from as int, i as int),
        decreases to - i,
    {
        push_char(s, chars[i]);
        assert(chars@.subrange(from as int, i + 1) == chars@.subrange(from as int, i as int).push(
            chars@[i as int],
        ));
        i += 1;
    }
}

/// The string made of `chars[from..to]`.
pub fn string_of(chars: &Vec<char>, from: usize, to: usize) -> (res: String)
    requires
        from <= to <= chars.len(),
    ensures
        res@ == chars@.subrange(from as int, to as int),
{
    let mut s = String::new();
    push_chars(&mut s, chars, from, to);
    s
}

/// Appends the characters of `t` to `s`.
pub fn push_str(s: &mut String, t: &str)
    ensures
        final(s)@ == old(s)@ + t@,
{
    s.append(t);
}

/// Appends the decimal rendering of `n` to `s`.
pub fn push_dec(s: &mut String, n: u128)
    ensures
        final(s)@ == old(s)@ + dec(n as nat),
    decreases n,
{
    if n >= 10 {
        push_dec(s, n / 10);
    }
    let d = n % 10;
    let c = if d == 0 { '0' } else if d == 1 { '1' } else if d == 2 { '2' } else if d == 3 { '3' }
        else if d == 4 { '4' } else if d == 5 { '5' } else if d == 6 { '6' } else if d == 7 { '7' }
        else if d == 8 { '8' } else { '9' };
    push_char(s, c);
    proof {
        if n >= 10 {
            assert(dec(n as nat) == dec((n / 10) as nat).push(digit((n % 10) as nat)));
        }
    }
}

/// Appends the lower-case hexadecimal rendering of `n` to `s`.
pub fn push_hex(s: &mut String, n: u128)
    ensures
        final(s)@ == old(s)@ + hex(n as nat),
    decreases n,
{
    if n >= 16 {
        push_hex(s, n / 16);
    }
    let d = n % 16;
    let c = if d < 10 {
        if d == 0 { '0' } else if d == 1 { '1' } else if d == 2 { '2' } else if d == 3 { '3' }
        else if d == 4 { '4' } else if d == 5 { '5' } else if d == 6 { '6' } else if d == 7 { '7' }
        else if d == 8 { '8' } else { '9' }
    } else if d == 10 { 'a' } else if d == 11 { 'b' } else if d == 12 { 'c' } else if d == 13 { 'd' }
        else if d == 14 { 'e' } else { 'f' };
    push_char(s, c);
    proof {
        if n >= 16 {
            assert(hex(n as nat) == hex((n / 16) as nat).push(hex_digit((n % 16) as nat)));
        }
    }
}

/// Whether `c` is whitespace, as `char::is_whitespace`.
pub fn is_whitespace(c: char) -> (res: bool)
    ensures
        res == is_ws(c),
{
    ('\u{9}' <= c && c <= '\u{d}') || c == ' ' || c == '\u{85}' || c == '\u{a0}' || c == '\u{1680}'
        || ('\u{2000}' <= c && c <= '\u{200a}') || c == '\u{2028}' || c == '\u{2029}'
        || c == '\u{202f}' || c == '\u{205f}' || c == '\u{3000}'
}

/// Bounds of `trim(chars[from..to])` inside `chars`.
pub fn trim_range(chars: &Vec<char>, from: usize, to: usize) -> (res: (usize, usize))
    requires
        from <= to <= chars.len(),
    ensures
        from <= res.0 <= res.1 <= to,
        chars@.subrange(res.0 as int, res.1 as int) == trim(
            chars@.subrange(from as int, to as int),
        ),
{
    let mut a = from;
    while a < to && is_whitespace(chars[a])
        invariant
            from <= a <= to <= chars.len(),
            trim_start(chars@.subrange(from as int, to as int)) == trim_start(
                chars@.subrange(a as int, to as int),
            ),
        decreases to - a,
    {
        assert(chars@.subrange(a as int, to as int).drop_first() == chars@.subrange(
            a + 1,
            to as int,
        ));
        a += 1;
    }
    assert(trim_start(chars@.subrange(a as int, to as int)) == chars@.subrange(a as int, to as int));
    let mut b = to;
    while b > a && is_whitespace(chars[b - 1])
        invariant
            from <= a <= b <= to <= chars.len(),
            trim(chars@.subrange(from as int, to as int)) == trim_end(
                chars@.subrange(a as int, b as int),
            ),
        decreases b - a,
    {
        assert(chars@.subrange(a as int, b as int).drop_last() == chars@.subrange(
            a as int,
            b - 1,
        ));
        b -= 1;
    }
    (a, b)
}

/// Index of the first `c` in `chars[from..to]`, counted from `from`.
pub fn find_in(chars: &Vec<char>, from: usize, to: usize, c: char) -> (res: Option<usize>)
    requires
        from <= to <= chars.len(),
    ensures
        res matches Some(k) ==> find_char(chars@.subrange(from as int, to as int), c) == Some(
            k as int,
        ),
        res is None ==> find_char(chars@.subrange(from as int, to as int), c) is None,
        res matches Some(k) ==> from + k < to,
{
    let ghost s = chars@.subrange(from as int, to as int);
    let mut i = from;
    while i < to
        invariant
            from <= i <= to <= chars.len(),
            s == chars@.subrange(from as int, to as int),
            find_from(s, c, 0) == find_from(s, c, i - from),
        decreases to - i,
    {
        if chars[i] == c {
            return Some(i - from);
        }
        i += 1;
    }
    None
}

} // verus!

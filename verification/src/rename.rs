//! Renaming files from a mapping: parsing the mapping text, checking the new
//! names, planning the renames with conflict detection, and recording the
//! outcome of the two-phase execution.

use vstd::multiset::Multiset;
use vstd::prelude::*;

use crate::locale::{tr, tr_spec, Locale};
use crate::report::{note_entry, EntryView, Report};
use crate::text::{
    ascii_upper, char_from_u32, chars_of, dec, find_char, find_from, find_in, hex, is_ws,
    lemma_dec_injective, lowercase,
    push_char, push_dec, push_hex, push_str, rfind_upto, string_from_utf8, string_of, strip_leading,
    to_lowercase, trim, trim_end, trim_range, trim_start,
};

verus! {

broadcast use vstd::seq_lib::group_seq_properties;

// ================================================================== names

/// One rename that took place (or is planned): `from` became `to`.
#[derive(Debug, Clone)]
pub struct AppliedRename {
    pub from: String,
    pub to: String,
}

/// The record of an executed batch, from which it can be undone.
#[derive(Debug, Clone)]
pub struct UndoLog {
    pub folder: String,
    pub renames: Vec<AppliedRename>,
}

/// Characters that Windows refuses in file names, and control characters.
pub open spec fn is_forbidden(c: char) -> bool {
    ||| c == '\\'
    ||| c == '/'
    ||| c == ':'
    ||| c == '*'
    ||| c == '?'
    ||| c == '"'
    ||| c == '<'
    ||| c == '>'
    ||| c == '|'
    ||| (c as u32) < 32
}

/// Index of the first forbidden character of `s` at or after `from`.
pub open spec fn first_forbidden_from(s: Seq<char>, from: int) -> Option<int>
    decreases s.len() - from,
{
    if from < 0 || from >= s.len() {
        None
    } else if is_forbidden(s[from]) {
        Some(from)
    } else {
        first_forbidden_from(s, from + 1)
    }
}

/// How `{:?}` renders a forbidden character: quoted, with `\\`, `\0`, `\t`,
/// `\n`, `\r` escaped and other control characters as `\u{..}`.
pub open spec fn debug_char(c: char) -> Seq<char> {
    let body = if c == '\\' {
        seq!['\\', '\\']
    } else if c == '\0' {
        seq!['\\', '0']
    } else if c == '\t' {
        seq!['\\', 't']
    } else if c == '\n' {
        seq!['\\', 'n']
    } else if c == '\r' {
        seq!['\\', 'r']
    } else if (c as u32) < 32 {
        seq!['\\', 'u', '{'] + hex(c as u32 as nat) + seq!['}']
    } else {
        seq![c]
    };
    seq!['\''] + body + seq!['\'']
}

/// The part of a name before its first dot (the whole name if it has none).
pub open spec fn stem_of(s: Seq<char>) -> Seq<char> {
    match find_char(s, '.') {
        Some(k) => s.take(k),
        None => s,
    }
}

/// Windows device names: CON, PRN, AUX, NUL, COM1..COM9, LPT1..LPT9.
pub open spec fn is_reserved(s: Seq<char>) -> bool {
    ||| s =~= seq!['C', 'O', 'N']
    ||| s =~= seq!['P', 'R', 'N']
    ||| s =~= seq!['A', 'U', 'X']
    ||| s =~= seq!['N', 'U', 'L']
    ||| (s.len() == 4 && s[0] == 'C' && s[1] == 'O' && s[2] == 'M' && '1' <= s[3] && s[3] <= '9')
    ||| (s.len() == 4 && s[0] == 'L' && s[1] == 'P' && s[2] == 'T' && '1' <= s[3] && s[3] <= '9')
}

/// The verdict on a new file name: `Ok` or the reason it is refused.
pub open spec fn name_verdict(loc: Locale, name: Seq<char>) -> Result<(), Seq<char>> {
    match first_forbidden_from(name, 0) {
        Some(k) => Err(
            tr_spec(loc, "新文件名含非法字符"@, "New name contains invalid character"@) + " "@
                + debug_char(name[k]),
        ),
        None => if name.len() > 0 && (name.last() == '.' || name.last() == ' ') {
            Err(
                tr_spec(
                    loc,
                    "新文件名不能以句点或空格结尾"@,
                    "New name cannot end with a dot or space"@,
                ),
            )
        } else if name.len() > 255 {
            Err(tr_spec(loc, "新文件名超过 255 字符"@, "New name exceeds 255 characters"@))
        } else if is_reserved(stem_of(name).map_values(|c: char| ascii_upper(c))) {
            Err(
                stem_of(name).map_values(|c: char| ascii_upper(c)) + " "@ + tr_spec(
                    loc,
                    "是 Windows 保留设备名"@,
                    "is a reserved Windows device name"@,
                ),
            )
        } else {
            Ok(())
        },
    }
}

/// Abstract value of a check's result.
pub open spec fn verdict_view(r: Result<(), String>) -> Result<(), Seq<char>> {
    match r {
        Ok(()) => Ok(()),
        Err(e) => Err(e@),
    }
}

fn char_is_forbidden(c: char) -> (res: bool)
    ensures
        res == is_forbidden(c),
{
    c == '\\' || c == '/' || c == ':' || c == '*' || c == '?' || c == '"' || c == '<' || c == '>'
        || c == '|' || (c as u32) < 32
}

/// A character that Windows refuses in a file name: `\ / : * ? " < > |`
/// or a control character below U+0020.
pub open spec fn refused_by_windows(c: char) -> bool {
    seq!['\\', '/', ':', '*', '?', '"', '<', '>', '|'].contains(c) || (c as u32) < 32
}

proof fn lemma_first_forbidden_at(name: Seq<char>, from: int, k: int)
    requires
        0 <= from <= k < name.len(),
        refused_by_windows(name[k]),
        forall|j: int| from <= j < k ==> !refused_by_windows(#[trigger] name[j]),
    ensures
        first_forbidden_from(name, from) == Some(k),
    decreases k - from,
{
    if from < k {
        lemma_first_forbidden_at(name, from + 1, k);
    }
}

proof fn lemma_none_forbidden(name: Seq<char>, from: int)
    requires
        0 <= from,
        forall|j: int| from <= j < name.len() ==> !refused_by_windows(#[trigger] name[j]),
    ensures
        first_forbidden_from(name, from) is None,
    decreases name.len() - from,
{
    if from < name.len() {
        lemma_none_forbidden(name, from + 1);
    }
}

/// A new name holding a character that Windows refuses is refused with the
/// invalid-character message naming the first such character; a name
/// holding none is never refused for a character.
pub proof fn law_refused_characters(loc: Locale, name: Seq<char>)
    ensures
        forall|k: int|
            0 <= k < name.len() && refused_by_windows(#[trigger] name[k]) && (forall|j: int|
                0 <= j < k ==> !refused_by_windows(#[trigger] name[j])) ==> name_verdict(loc, name)
                == Err::<(), Seq<char>>(
                tr_spec(loc, "新文件名含非法字符"@, "New name contains invalid character"@) + " "@
                    + debug_char(name[k]),
            ),
        (forall|j: int| 0 <= j < name.len() ==> !refused_by_windows(#[trigger] name[j]))
            ==> first_forbidden_from(name, 0) is None,
{
    assert forall|k: int|
        0 <= k < name.len() && refused_by_windows(#[trigger] name[k]) && (forall|j: int|
            0 <= j < k ==> !refused_by_windows(#[trigger] name[j])) implies name_verdict(loc, name)
        == Err::<(), Seq<char>>(
        tr_spec(loc, "新文件名含非法字符"@, "New name contains invalid character"@) + " "@
            + debug_char(name[k]),
    ) by {
        lemma_first_forbidden_at(name, 0, k);
    }
    if forall|j: int| 0 <= j < name.len() ==> !refused_by_windows(#[trigger] name[j]) {
        lemma_none_forbidden(name, 0);
    }
}

fn hex_of(n: u32) -> (res: String)
    ensures
        res@ == hex(n as nat),
{
    let mut s = String::new();
    push_hex(&mut s, n as u128);
    s
}

/// `{:?}` of a forbidden character.
fn debug_char_string(c: char) -> (res: String)
    ensures
        res@ == debug_char(c),
{
    let mut s = String::new();
    push_char(&mut s, '\'');
    if c == '\\' {
        push_char(&mut s, '\\');
        push_char(&mut s, '\\');
    } else if c == '\0' {
        push_char(&mut s, '\\');
        push_char(&mut s, '0');
    } else if c == '\t' {
        push_char(&mut s, '\\');
        push_char(&mut s, 't');
    } else if c == '\n' {
        push_char(&mut s, '\\');
        push_char(&mut s, 'n');
    } else if c == '\r' {
        push_char(&mut s, '\\');
        push_char(&mut s, 'r');
    } else if (c as u32) < 32 {
        push_char(&mut s, '\\');
        push_char(&mut s, 'u');
        push_char(&mut s, '{');
        push_hex(&mut s, (c as u32) as u128);
        push_char(&mut s, '}');
    } else {
        push_char(&mut s, c);
    }
    push_char(&mut s, '\'');
    proof {
        let body = if c == '\\' {
            seq!['\\', '\\']
        } else if c == '\0' {
            seq!['\\', '0']
        } else if c == '\t' {
            seq!['\\', 't']
        } else if c == '\n' {
            seq!['\\', 'n']
        } else if c == '\r' {
            seq!['\\', 'r']
        } else if (c as u32) < 32 {
            seq!['\\', 'u', '{'] + hex(c as u32 as nat) + seq!['}']
        } else {
            seq![c]
        };
        assert(s@ =~= seq!['\''] + body + seq!['\'']);
    }
    s
}

fn upper_char(c: char) -> (res: char)
    ensures
        res == ascii_upper(c),
{
    if 'a' <= c && c <= 'z' {
        let u = (c as u32) - 32;
        match char_from_u32(u) {
            Some(r) => r,
            None => c,
        }
    } else {
        c
    }
}

fn reserved_chars(s: &Vec<char>) -> (res: bool)
    ensures
        res == is_reserved(s@),
{
    if s.len() == 3 {
        (s[0] == 'C' && s[1] == 'O' && s[2] == 'N') || (s[0] == 'P' && s[1] == 'R' && s[2] == 'N')
            || (s[0] == 'A' && s[1] == 'U' && s[2] == 'X') || (s[0] == 'N' && s[1] == 'U' && s[2]
            == 'L')
    } else if s.len() == 4 {
        ((s[0] == 'C' && s[1] == 'O' && s[2] == 'M') || (s[0] == 'L' && s[1] == 'P' && s[2] == 'T'))
            && '1' <= s[3] && s[3] <= '9'
    } else {
        false
    }
}

/// Checks a new file name against what Windows refuses: forbidden and
/// control characters, a trailing dot or space, more than 255 characters,
/// and device names (CON, COM1, ...) before the first dot in any case.
pub fn validate_new_name(loc: Locale, name: &str) -> (res: Result<(), String>)
    ensures
        verdict_view(res) == name_verdict(loc, name@),
{
    let chars = chars_of(name);
    let n = chars.len();
    let mut i: usize = 0;
    while i < n
        invariant
            n == chars@.len(),
            chars@ == name@,
            i <= n,
            first_forbidden_from(name@, 0) == first_forbidden_from(name@, i as int),
        decreases n - i,
    {
        if char_is_forbidden(chars[i]) {
            let mut msg = tr(loc, "新文件名含非法字符", "New name contains invalid character");
            push_str(&mut msg, " ");
            let d = debug_char_string(chars[i]);
            push_str(&mut msg, d.as_str());
            return Err(msg);
        }
        i += 1;
    }
    if n > 0 && (chars[n - 1] == '.' || chars[n - 1] == ' ') {
        return Err(
            tr(loc, "新文件名不能以句点或空格结尾", "New name cannot end with a dot or space"),
        );
    }
    if n > 255 {
        return Err(tr(loc, "新文件名超过 255 字符", "New name exceeds 255 characters"));
    }
    let end = match find_in(&chars, 0, n, '.') {
        Some(k) => k,
        None => n,
    };
    proof {
        assert(chars@.subrange(0, n as int) == chars@);
    }
    let mut stem: Vec<char> = Vec::new();
    let mut j: usize = 0;
    while j < end
        invariant
            j <= end <= n,
            n == chars@.len(),
            stem@ == chars@.take(j as int).map_values(|c: char| ascii_upper(c)),
        decreases end - j,
    {
        stem.push(upper_char(chars[j]));
        proof {
            assert(chars@.take(j + 1) == chars@.take(j as int).push(chars@[j as int]));
        }
        j += 1;
    }
    proof {
        assert(stem_of(name@) == chars@.take(end as int));
    }
    if reserved_chars(&stem) {
        let mut msg = string_of(&stem, 0, stem.len());
        push_str(&mut msg, " ");
        let t = tr(loc, "是 Windows 保留设备名", "is a reserved Windows device name");
        push_str(&mut msg, t.as_str());
        proof {
            assert(stem@.subrange(0, stem@.len() as int) == stem@);
        }
        return Err(msg);
    }
    Ok(())
}

/// The extension of a name: what follows its last dot, where that dot is not
/// the name's first character and something follows it.
pub open spec fn ext_spec(s: Seq<char>) -> Option<Seq<char>> {
    if s.len() == 0 {
        None
    } else {
        match rfind_upto(s, '.', s.len() as int) {
            Some(k) => if k >= 1 && k + 1 < s.len() {
                Some(s.skip(k + 1))
            } else {
                None
            },
            None => None,
        }
    }
}

/// Extension of a file name, if it has one (".png" and "a." have none).
pub fn ext_of(name: &str) -> (res: Option<&str>)
    ensures
        res matches Some(e) ==> ext_spec(name@) == Some(e@),
        res is None ==> ext_spec(name@) is None,
{
    let chars = chars_of(name);
    let n = chars.len();
    if n == 0 {
        return None;
    }
    let mut i = n;
    while i > 1 && chars[i - 1] != '.'
        invariant
            1 <= i <= n,
            n == chars@.len(),
            chars@ == name@,
            rfind_upto(name@, '.', n as int) == rfind_upto(name@, '.', i as int),
        decreases i,
    {
        i -= 1;
    }
    // here either i == 1 (nothing left to search but the first character) or chars[i - 1] == '.'
    if i >= 2 && i < n {
        Some(name.substring_char(i, n))
    } else {
        proof {
            if i == 1 {
                if chars@[0] == '.' {
                    assert(rfind_upto(name@, '.', 1) == Some(0int));
                } else {
                    assert(rfind_upto(name@, '.', 0) is None);
                }
            }
        }
        None
    }
}

/// The mapping that undoes a log: every rename reversed, in the same order.
pub fn invert(log: &UndoLog) -> (res: Vec<(String, String)>)
    ensures
        res@.len() == log.renames@.len(),
        forall|i: int|
            0 <= i < res@.len() ==> (#[trigger] res@[i]).0@ == log.renames@[i].to@ && res@[i].1@
                == log.renames@[i].from@,
{
    let mut out: Vec<(String, String)> = Vec::new();
    let n = log.renames.len();
    for i in 0..n
        invariant
            n == log.renames@.len(),
            out@.len() == i,
            forall|j: int|
                0 <= j < i ==> (#[trigger] out@[j]).0@ == log.renames@[j].to@ && out@[j].1@
                    == log.renames@[j].from@,
    {
        let r = &log.renames[i];
        out.push((r.to.clone(), r.from.clone()));
    }
    out
}

// ================================================================== decoding

/// UTF-16 decoding, as `String::from_utf16`: `None` on an unpaired surrogate.
pub open spec fn utf16_decode(u: Seq<u16>) -> Option<Seq<char>>
    decreases u.len(),
{
    if u.len() == 0 {
        Some(seq![])
    } else if u[0] < 0xD800 || u[0] > 0xDFFF {
        match utf16_decode(u.drop_first()) {
            Some(r) => Some(seq![u[0] as u32 as char] + r),
            None => None,
        }
    } else if u[0] <= 0xDBFF && u.len() >= 2 && 0xDC00 <= u[1] && u[1] <= 0xDFFF {
        let c = 0x10000 + (u[0] - 0xD800) * 0x400 + (u[1] - 0xDC00);
        match utf16_decode(u.skip(2)) {
            Some(r) => Some(seq![c as u32 as char] + r),
            None => None,
        }
    } else {
        None
    }
}

/// The 16-bit units of `b`, two bytes each, an odd last byte dropped;
/// little-endian when `le`, big-endian otherwise.
pub open spec fn units_of(b: Seq<u8>, le: bool) -> Seq<u16> {
    Seq::new(
        (b.len() / 2) as nat,
        |k: int|
            if le {
                (b[2 * k] + 256 * b[2 * k + 1]) as u16
            } else {
                (256 * b[2 * k] + b[2 * k + 1]) as u16
            },
    )
}

/// What the bytes of a mapping file decode to: UTF-16 LE or BE after the
/// matching byte-order mark, UTF-8 otherwise (a UTF-8 byte-order mark
/// removed); `None` when they are not valid in that encoding.
pub open spec fn decode_text_spec(b: Seq<u8>) -> Option<Seq<char>> {
    if b.len() >= 2 && b[0] == 0xFF && b[1] == 0xFE {
        utf16_decode(units_of(b.skip(2), true))
    } else if b.len() >= 2 && b[0] == 0xFE && b[1] == 0xFF {
        utf16_decode(units_of(b.skip(2), false))
    } else {
        let rest = if b.len() >= 3 && b[0] == 0xEF && b[1] == 0xBB && b[2] == 0xBF {
            b.skip(3)
        } else {
            b
        };
        if vstd::utf8::valid_utf8(rest) {
            Some(vstd::utf8::decode_utf8(rest))
        } else {
            None
        }
    }
}

/// The UTF-16 encoding of characters: one unit below 0x10000, a surrogate
/// pair above.
pub open spec fn encode_utf16(s: Seq<char>) -> Seq<u16>
    decreases s.len(),
{
    if s.len() == 0 {
        seq![]
    } else {
        let c = s[0] as u32;
        (if c < 0x10000 {
            seq![c as u16]
        } else {
            seq![
                (0xD800 + (c - 0x10000) / 0x400) as u16,
                (0xDC00 + (c - 0x10000) % 0x400) as u16,
            ]
        }) + encode_utf16(s.drop_first())
    }
}

/// The bytes of 16-bit units, low byte first when `le`, high byte first
/// otherwise.
pub open spec fn unit_bytes(u: Seq<u16>, le: bool) -> Seq<u8> {
    Seq::new(
        2 * u.len(),
        |k: int|
            if (k % 2 == 0) == le {
                (u[k / 2] % 256) as u8
            } else {
                (u[k / 2] / 256) as u8
            },
    )
}

proof fn lemma_units_of_unit_bytes(u: Seq<u16>, le: bool)
    ensures
        units_of(unit_bytes(u, le), le) == u,
{
    let b = unit_bytes(u, le);
    let r = units_of(b, le);
    assert(b.len() / 2 == u.len());
    assert forall|k: int| 0 <= k < u.len() implies r[k] == u[k] by {
        assert((2 * k) % 2 == 0 && (2 * k) / 2 == k);
        assert((2 * k + 1) % 2 == 1 && (2 * k + 1) / 2 == k);
        let v = u[k] as int;
        assert(v % 256 + 256 * (v / 256) == v);
        assert(b[2 * k] == if le { (v % 256) as u8 } else { (v / 256) as u8 });
        assert(b[2 * k + 1] == if le { (v / 256) as u8 } else { (v % 256) as u8 });
    }
    assert(r =~= u);
}

proof fn lemma_utf16_decode_encode(s: Seq<char>)
    ensures
        utf16_decode(encode_utf16(s)) == Some(s),
    decreases s.len(),
{
    if s.len() > 0 {
        let c = s[0] as u32;
        let e = encode_utf16(s);
        let rest = encode_utf16(s.drop_first());
        lemma_utf16_decode_encode(s.drop_first());
        vstd::utf8::char_is_scalar(s[0]);
        if c < 0x10000 {
            assert(e == seq![c as u16] + rest);
            assert(e.drop_first() =~= rest);
            assert(e[0] as u32 == c);
            vstd::utf8::char_u32_cast(s[0], c);
            assert(seq![s[0]] + s.drop_first() =~= s);
        } else {
            let x = c - 0x10000;
            assert(0 <= x <= 0xFFFFF);
            assert(x / 0x400 <= 0x3FF);
            assert(x / 0x400 * 0x400 + x % 0x400 == x);
            let hi = (0xD800 + x / 0x400) as u16;
            let lo = (0xDC00 + x % 0x400) as u16;
            assert(e == seq![hi, lo] + rest);
            assert(e.skip(2) =~= rest);
            assert(e[0] == hi && e[1] == lo);
            assert(0x10000 + (hi - 0xD800) * 0x400 + (lo - 0xDC00) == c);
            vstd::utf8::char_u32_cast(s[0], c);
            assert(seq![s[0]] + s.drop_first() =~= s);
        }
    }
}

/// The first byte of a UTF-8 encoding is never 0xFE or 0xFF, and its first
/// three bytes are the byte-order mark only when it starts with U+FEFF.
proof fn lemma_utf8_start(s: Seq<char>)
    requires
        s.len() > 0,
    ensures
        ({
            let b = vstd::utf8::encode_utf8(s);
            &&& b.len() > 0
            &&& b[0] != 0xFE && b[0] != 0xFF
            &&& (b.len() >= 3 && b[0] == 0xEF && b[1] == 0xBB && b[2] == 0xBF) ==> s[0] == '\u{feff}'
        }),
{
    let c = s[0] as u32;
    let b = vstd::utf8::encode_utf8(s);
    let e = vstd::utf8::encode_scalar(c);
    assert(b == e + vstd::utf8::encode_utf8(s.drop_first()));
    vstd::utf8::char_is_scalar(s[0]);
    assert(b[0] == e[0]);
    if vstd::utf8::has_width_1_encoding(c) {
        assert((c & 0x7F) as u8 <= 0x7F) by (bit_vector);
        assert(e[0] == (c & 0x7F) as u8);
    } else if vstd::utf8::has_width_2_encoding(c) {
        assert((0xC0u8 | (((c >> 6) & 0x1F) as u8)) <= 0xDF) by (bit_vector);
        assert(e[0] == (0xC0u8 | (((c >> 6) & 0x1F) as u8)));
    } else if vstd::utf8::has_width_3_encoding(c) {
        assert((0xE0u8 | (((c >> 12) & 0x0F) as u8)) <= 0xEF) by (bit_vector);
        assert(c <= 0xFFFF && (0xE0u8 | (((c >> 12) & 0x0F) as u8)) == 0xEF && (0x80u8 | (((c
            >> 6) & 0x3F) as u8)) == 0xBB && (0x80u8 | ((c & 0x3F) as u8)) == 0xBF ==> c == 0xFEFF)
            by (bit_vector);
        assert(b[1] == e[1] && b[2] == e[2]);
        if b[0] == 0xEF && b[1] == 0xBB && b[2] == 0xBF {
            vstd::utf8::char_u32_cast(s[0], c);
            assert(c == 0xFEFF);
            assert('\u{feff}' as u32 == 0xFEFF);
        }
    } else {
        assert((0xF0u8 | (((c >> 18) & 0x7) as u8)) <= 0xF7) by (bit_vector);
        assert((0xF0u8 | (((c >> 18) & 0x7) as u8)) >= 0xF0) by (bit_vector);
        assert(e[0] == (0xF0u8 | (((c >> 18) & 0x7) as u8)));
    }
}

/// Decoding gives back what was encoded: UTF-8 without a byte-order mark
/// (when the text does not itself start with U+FEFF), UTF-8 after the mark,
/// and UTF-16 little- and big-endian after their marks.
pub proof fn law_decode_text_round_trips(s: Seq<char>)
    ensures
        (s.len() == 0 || s[0] != '\u{feff}') ==> decode_text_spec(vstd::utf8::encode_utf8(s))
            == Some(s),
        decode_text_spec(seq![0xEFu8, 0xBBu8, 0xBFu8] + vstd::utf8::encode_utf8(s)) == Some(s),
        decode_text_spec(seq![0xFFu8, 0xFEu8] + unit_bytes(encode_utf16(s), true)) == Some(s),
        decode_text_spec(seq![0xFEu8, 0xFFu8] + unit_bytes(encode_utf16(s), false)) == Some(s),
{
    broadcast use vstd::utf8::encode_utf8_valid_utf8, vstd::utf8::encode_utf8_decode_utf8;

    let b = vstd::utf8::encode_utf8(s);
    if s.len() > 0 {
        lemma_utf8_start(s);
    } else {
        assert(b.len() == 0);
    }
    let bom = seq![0xEFu8, 0xBBu8, 0xBFu8] + b;
    assert(bom.skip(3) =~= b);
    lemma_utf16_decode_encode(s);
    let le = seq![0xFFu8, 0xFEu8] + unit_bytes(encode_utf16(s), true);
    assert(le.skip(2) =~= unit_bytes(encode_utf16(s), true));
    lemma_units_of_unit_bytes(encode_utf16(s), true);
    let be = seq![0xFEu8, 0xFFu8] + unit_bytes(encode_utf16(s), false);
    assert(be.skip(2) =~= unit_bytes(encode_utf16(s), false));
    lemma_units_of_unit_bytes(encode_utf16(s), false);
}

fn utf16_units(bytes: &[u8], start: usize, le: bool) -> (res: Vec<u16>)
    requires
        start <= bytes@.len(),
    ensures
        res@ == units_of(bytes@.skip(start as int), le),
{
    let ghost b = bytes@.skip(start as int);
    let len = bytes.len();
    let n = (len - start) / 2;
    let mut out: Vec<u16> = Vec::new();
    let mut k: usize = 0;
    while k < n
        invariant
            k <= n,
            start <= len,
            len == bytes@.len(),
            n == (len - start) / 2,
            b == bytes@.skip(start as int),
            out@.len() == k,
            forall|j: int| 0 <= j < k ==> out@[j] == #[trigger] units_of(b, le)[j],
        decreases n - k,
    {
        assert(start + 2 * k + 1 < bytes@.len());
        let x = bytes[start + 2 * k] as u16;
        let y = bytes[start + 2 * k + 1] as u16;
        let u = if le { x + 256 * y } else { 256 * x + y };
        out.push(u);
        k += 1;
    }
    assert(out@ =~= units_of(b, le));
    out
}

proof fn lemma_push_then_concat(a: Seq<char>, c: char, r: Seq<char>)
    ensures
        a.push(c) + r == a + (seq![c] + r),
{
    assert(a.push(c) + r =~= a + (seq![c] + r));
}

#[verifier::spinoff_prover]
#[verifier::rlimit(50)]
fn decode_utf16(u: &Vec<u16>) -> (res: Option<String>)
    ensures
        res is Some <==> utf16_decode(u@) is Some,
        res matches Some(s) ==> utf16_decode(u@) == Some(s@),
{
    let n = u.len();
    let mut out = String::new();
    let mut i: usize = 0;
    assert(u@.skip(0) =~= u@);
    while i < n
        invariant
            i <= n,
            n == u@.len(),
            utf16_decode(u@.skip(i as int)) matches Some(r) ==> utf16_decode(u@) == Some(out@ + r),
            utf16_decode(u@.skip(i as int)) is None ==> utf16_decode(u@) is None,
        decreases n - i,
    {
        let ghost rest = u@.skip(i as int);
        let a = u[i];
        assert(rest[0] == a);
        if a < 0xD800 || a > 0xDFFF {
            assert(rest.drop_first() =~= u@.skip(i + 1));
            match char_from_u32(a as u32) {
                Some(c) => {
                    let ghost before = out@;
                    push_char(&mut out, c);
                    proof {
                        match utf16_decode(u@.skip(i + 1)) {
                            Some(r) => lemma_push_then_concat(before, c, r),
                            None => {},
                        }
                    }
                },
                None => return None,
            }
            i += 1;
        } else if a <= 0xDBFF && i + 1 < n && 0xDC00 <= u[i + 1] && u[i + 1] <= 0xDFFF {
            let b = u[i + 1];
            assert(rest[1] == b);
            assert(rest.skip(2) =~= u@.skip(i + 2));
            let c = 0x10000u32 + ((a as u32) - 0xD800) * 0x400 + ((b as u32) - 0xDC00);
            match char_from_u32(c) {
                Some(ch) => {
                    let ghost before = out@;
                    push_char(&mut out, ch);
                    proof {
                        match utf16_decode(u@.skip(i + 2)) {
                            Some(r) => lemma_push_then_concat(before, ch, r),
                            None => {},
                        }
                    }
                },
                None => return None,
            }
            i += 2;
        } else {
            return None;
        }
    }
    assert(u@.skip(n as int) =~= Seq::<u16>::empty());
    assert(out@ + Seq::<char>::empty() =~= out@);
    Some(out)
}

/// Decodes the bytes of a mapping file: UTF-16 LE/BE when they start with
/// the matching byte-order mark (as spreadsheet exports do), UTF-8 otherwise,
/// with a UTF-8 byte-order mark removed. `None` when they do not decode.
pub fn decode_text(bytes: &[u8]) -> (res: Option<String>)
    ensures
        res is Some <==> decode_text_spec(bytes@) is Some,
        res matches Some(s) ==> decode_text_spec(bytes@) == Some(s@),
{
    let n = bytes.len();
    if n >= 2 && bytes[0] == 0xFF && bytes[1] == 0xFE {
        let units = utf16_units(bytes, 2, true);
        return decode_utf16(&units);
    }
    if n >= 2 && bytes[0] == 0xFE && bytes[1] == 0xFF {
        let units = utf16_units(bytes, 2, false);
        return decode_utf16(&units);
    }
    let start: usize = if n >= 3 && bytes[0] == 0xEF && bytes[1] == 0xBB && bytes[2] == 0xBF {
        3
    } else {
        0
    };
    let mut rest: Vec<u8> = Vec::new();
    let mut i = start;
    while i < n
        invariant
            start <= i <= n,
            n == bytes@.len(),
            rest@ == bytes@.subrange(start as int, i as int),
        decreases n - i,
    {
        rest.push(bytes[i]);
        assert(bytes@.subrange(start as int, i + 1) == bytes@.subrange(start as int, i as int).push(
            bytes@[i as int],
        ));
        i += 1;
    }
    assert(rest@ =~= bytes@.skip(start as int));
    assert(bytes@.skip(0) =~= bytes@);
    string_from_utf8(rest)
}

// ================================================================== mapping text

/// The lines of a text, split at every `'\n'`; the last line is what follows
/// the last `'\n'` (possibly empty). A `'\r'` before the `'\n'` stays in the
/// line, where trimming removes it.
pub open spec fn split_lines(s: Seq<char>) -> Seq<Seq<char>>
    decreases s.len(),
{
    if s.len() == 0 {
        seq![seq![]]
    } else {
        let prev = split_lines(s.drop_last());
        if s.last() == '\n' {
            prev.push(seq![])
        } else {
            prev.update(prev.len() - 1, prev.last().push(s.last()))
        }
    }
}

/// A text has at least one line.
pub proof fn lemma_split_lines_nonempty(s: Seq<char>)
    ensures
        split_lines(s).len() >= 1,
    decreases s.len(),
{
    if s.len() > 0 {
        lemma_split_lines_nonempty(s.drop_last());
    }
}

/// What one line of a mapping text contributes.
pub enum LineParse {
    /// Empty line or comment.
    Blank,
    /// An `old`/`new` pair.
    Pair(Seq<char>, Seq<char>),
    /// A malformed line, with its message.
    Bad(Seq<char>),
}

/// A line split at its first tab, else at its first full-width comma, else
/// at its first comma.
pub open spec fn split_sep(line: Seq<char>) -> Option<(Seq<char>, Seq<char>)> {
    match find_char(line, '\t') {
        Some(k) => Some((line.take(k), line.skip(k + 1))),
        None => match find_char(line, '，') {
            Some(k) => Some((line.take(k), line.skip(k + 1))),
            None => match find_char(line, ',') {
                Some(k) => Some((line.take(k), line.skip(k + 1))),
                None => None,
            },
        },
    }
}

/// "Line N: <reason>" in the given language.
pub open spec fn line_message(loc: Locale, lineno: nat, zh: Seq<char>, en: Seq<char>) -> Seq<
    char,
> {
    tr_spec(loc, "第"@, "Line"@) + " "@ + dec(lineno) + ": "@ + tr_spec(loc, zh, en)
}

/// How line number `lineno` (counted from 1) of a mapping text is read:
/// leading byte-order marks and surrounding whitespace are removed; an empty
/// line or one starting with `#` is blank; otherwise it must hold a separator
/// with a non-empty (trimmed) name on each side.
pub open spec fn parse_line(loc: Locale, raw: Seq<char>, lineno: nat) -> LineParse {
    let line = trim(strip_leading(raw, '\u{feff}'));
    if line.len() == 0 || line[0] == '#' {
        LineParse::Blank
    } else {
        match split_sep(line) {
            None => LineParse::Bad(
                line_message(
                    loc,
                    lineno,
                    "行缺少分隔符（逗号或 Tab）"@,
                    "missing separator (comma or tab)"@,
                ),
            ),
            Some((a, b)) => if trim(a).len() == 0 || trim(b).len() == 0 {
                LineParse::Bad(
                    line_message(
                        loc,
                        lineno,
                        "行缺少旧文件名或新文件名"@,
                        "missing old or new file name"@,
                    ),
                )
            } else {
                LineParse::Pair(trim(a), trim(b))
            },
        }
    }
}

/// The pairs and the error messages of a sequence of lines, in order.
pub open spec fn parse_lines(loc: Locale, lines: Seq<Seq<char>>) -> (
    Seq<(Seq<char>, Seq<char>)>,
    Seq<Seq<char>>,
)
    decreases lines.len(),
{
    if lines.len() == 0 {
        (seq![], seq![])
    } else {
        let (p, e) = parse_lines(loc, lines.drop_last());
        match parse_line(loc, lines.last(), lines.len()) {
            LineParse::Blank => (p, e),
            LineParse::Pair(a, b) => (p.push((a, b)), e),
            LineParse::Bad(m) => (p, e.push(m)),
        }
    }
}

/// The pairs and the error messages of a mapping text.
pub open spec fn parse_mapping_spec(loc: Locale, text: Seq<char>) -> (
    Seq<(Seq<char>, Seq<char>)>,
    Seq<Seq<char>>,
) {
    parse_lines(loc, split_lines(text))
}

/// Splitting a text that follows whole lines: the lines of `a + b`, when
/// `a` is empty or ends with a line break, are those of `a` before its final
/// empty line, then those of `b`.
proof fn lemma_split_lines_concat(a: Seq<char>, b: Seq<char>)
    requires
        a.len() == 0 || a.last() == '\n',
    ensures
        split_lines(a + b) == split_lines(a).drop_last() + split_lines(b),
    decreases b.len(),
{
    let sa = split_lines(a);
    if a.len() > 0 {
        assert(sa == split_lines(a.drop_last()).push(seq![]));
    }
    if b.len() == 0 {
        assert(a + b =~= a);
        assert(sa.drop_last() + split_lines(b) =~= sa);
    } else {
        let b0 = b.drop_last();
        lemma_split_lines_concat(a, b0);
        lemma_split_lines_nonempty(b0);
        assert((a + b).drop_last() =~= a + b0);
        assert((a + b).last() == b.last());
        let sb0 = split_lines(b0);
        if b.last() == '\n' {
            assert(sa.drop_last() + sb0.push(seq![]) =~= (sa.drop_last() + sb0).push(seq![]));
        } else {
            let x = sa.drop_last() + sb0;
            assert(x.update(x.len() - 1, x.last().push(b.last())) =~= sa.drop_last() + sb0.update(
                sb0.len() - 1,
                sb0.last().push(b.last()),
            ));
        }
    }
}

/// Whether a line is blank, a pair or malformed does not depend on its
/// number, nor does the pair it gives.
proof fn lemma_parse_line_kind(loc: Locale, raw: Seq<char>, n1: nat, n2: nat)
    ensures
        (parse_line(loc, raw, n1) is Blank) == (parse_line(loc, raw, n2) is Blank),
        (parse_line(loc, raw, n1) is Bad) == (parse_line(loc, raw, n2) is Bad),
        parse_line(loc, raw, n1) is Pair ==> parse_line(loc, raw, n1) == parse_line(loc, raw, n2),
{
}

proof fn lemma_parse_lines_concat(loc: Locale, l1: Seq<Seq<char>>, l2: Seq<Seq<char>>)
    ensures
        parse_lines(loc, l1 + l2).0 == parse_lines(loc, l1).0 + parse_lines(loc, l2).0,
        parse_lines(loc, l1 + l2).1.len() == parse_lines(loc, l1).1.len() + parse_lines(
            loc,
            l2,
        ).1.len(),
    decreases l2.len(),
{
    if l2.len() == 0 {
        assert(l1 + l2 =~= l1);
        assert(parse_lines(loc, l1).0 + parse_lines(loc, l2).0 =~= parse_lines(loc, l1).0);
    } else {
        let l20 = l2.drop_last();
        lemma_parse_lines_concat(loc, l1, l20);
        assert((l1 + l2).drop_last() =~= l1 + l20);
        assert((l1 + l2).last() == l2.last());
        lemma_parse_line_kind(loc, l2.last(), (l1 + l2).len(), l2.len());
        let p1 = parse_lines(loc, l1).0;
        let p20 = parse_lines(loc, l20).0;
        match parse_line(loc, l2.last(), l2.len()) {
            LineParse::Pair(x, y) => {
                assert(p1 + p20.push((x, y)) =~= (p1 + p20).push((x, y)));
            },
            _ => {},
        }
    }
}

/// Parsing follows whole lines: when `a` is empty or ends with a line break,
/// the pairs of `a + b` are those of `a` then those of `b`, and the errors
/// of `a + b` are as many as those of `a` and `b` together (the messages of
/// `b`'s lines carry their numbers in `a + b`).
pub proof fn law_parse_follows_whole_lines(loc: Locale, a: Seq<char>, b: Seq<char>)
    requires
        a.len() == 0 || a.last() == '\n',
    ensures
        parse_mapping_spec(loc, a + b).0 == parse_mapping_spec(loc, a).0 + parse_mapping_spec(
            loc,
            b,
        ).0,
        parse_mapping_spec(loc, a + b).1.len() == parse_mapping_spec(loc, a).1.len()
            + parse_mapping_spec(loc, b).1.len(),
{
    let sa = split_lines(a);
    lemma_split_lines_concat(a, b);
    lemma_split_lines_nonempty(a);
    lemma_parse_lines_concat(loc, sa.drop_last(), split_lines(b));
    if a.len() > 0 {
        assert(sa == split_lines(a.drop_last()).push(seq![]));
    }
    assert(sa.last() == Seq::<char>::empty());
    assert(sa.drop_last() == sa.take(sa.len() - 1));
    assert(trim_start(strip_leading(Seq::<char>::empty(), '\u{feff}')) == Seq::<char>::empty());
    assert(parse_line(loc, sa.last(), sa.len()) is Blank);
}

/// A line that splits at a separator but has nothing (once trimmed) on one
/// side gives no pair: it is a "missing old or new file name" error for its
/// line number. Every pair a line gives has both names non-empty.
pub proof fn law_line_needs_both_names(loc: Locale, raw: Seq<char>, lineno: nat)
    ensures
        ({
            let line = trim(strip_leading(raw, '\u{feff}'));
            (line.len() > 0 && line[0] != '#' && split_sep(line) is Some && (trim(
                split_sep(line).unwrap().0,
            ).len() == 0 || trim(split_sep(line).unwrap().1).len() == 0)) ==> parse_line(
                loc,
                raw,
                lineno,
            ) == LineParse::Bad(
                line_message(
                    loc,
                    lineno,
                    "行缺少旧文件名或新文件名"@,
                    "missing old or new file name"@,
                ),
            )
        }),
        parse_line(loc, raw, lineno) matches LineParse::Pair(a, b) ==> (a.len() > 0 && b.len() > 0),
{
}

proof fn lemma_parse_lines_pairs_nonempty(loc: Locale, lines: Seq<Seq<char>>)
    ensures
        forall|i: int|
            0 <= i < parse_lines(loc, lines).0.len() ==> (#[trigger] parse_lines(loc, lines).0[i]).0.len()
                > 0 && parse_lines(loc, lines).0[i].1.len() > 0,
    decreases lines.len(),
{
    if lines.len() > 0 {
        lemma_parse_lines_pairs_nonempty(loc, lines.drop_last());
        law_line_needs_both_names(loc, lines.last(), lines.len());
        let prev = parse_lines(loc, lines.drop_last()).0;
        let cur = parse_lines(loc, lines).0;
        match parse_line(loc, lines.last(), lines.len()) {
            LineParse::Pair(a, b) => {
                assert(cur == prev.push((a, b)));
                assert forall|i: int| 0 <= i < cur.len() implies (#[trigger] cur[i]).0.len() > 0
                    && cur[i].1.len() > 0 by {
                    if i < prev.len() {
                        assert(cur[i] == prev[i]);
                    }
                }
            },
            _ => {
                assert(cur == prev);
            },
        }
    }
}

/// Every pair read from a mapping text has a non-empty old name and a
/// non-empty new name.
pub proof fn law_parsed_pairs_have_both_names(loc: Locale, text: Seq<char>)
    ensures
        forall|i: int|
            0 <= i < parse_mapping_spec(loc, text).0.len() ==> (#[trigger] parse_mapping_spec(
                loc,
                text,
            ).0[i]).0.len() > 0 && parse_mapping_spec(loc, text).0[i].1.len() > 0,
{
    lemma_parse_lines_pairs_nonempty(loc, split_lines(text));
}

/// Abstract value of a list of name pairs.
pub open spec fn pairs_view(v: Seq<(String, String)>) -> Seq<(Seq<char>, Seq<char>)> {
    v.map_values(|p: (String, String)| (p.0@, p.1@))
}

/// Abstract value of a list of strings.
pub open spec fn strings_view(v: Seq<String>) -> Seq<Seq<char>> {
    v.map_values(|s: String| s@)
}

fn push_line_message(
    errors: &mut Vec<String>,
    loc: Locale,
    lineno: u128,
    zh: &str,
    en: &str,
)
    ensures
        strings_view(final(errors)@) == strings_view(old(errors)@).push(
            line_message(loc, lineno as nat, zh@, en@),
        ),
{
    let mut m = tr(loc, "第", "Line");
    push_str(&mut m, " ");
    push_dec(&mut m, lineno);
    push_str(&mut m, ": ");
    let t = tr(loc, zh, en);
    push_str(&mut m, t.as_str());
    errors.push(m);
    assert(strings_view(errors@) =~= strings_view(old(errors)@).push(errors@.last()@));
}

/// Reads the line `chars[from..to]`, numbered `lineno`, into `pairs` or
/// `errors`.
fn parse_one_line(
    loc: Locale,
    chars: &Vec<char>,
    from: usize,
    to: usize,
    lineno: u128,
    pairs: &mut Vec<(String, String)>,
    errors: &mut Vec<String>,
)
    requires
        from <= to <= chars@.len(),
    ensures
        ({
            let (p, e) = (pairs_view(old(pairs)@), strings_view(old(errors)@));
            match parse_line(loc, chars@.subrange(from as int, to as int), lineno as nat) {
                LineParse::Blank => pairs_view(final(pairs)@) == p && strings_view(final(errors)@)
                    == e,
                LineParse::Pair(a, b) => pairs_view(final(pairs)@) == p.push((a, b))
                    && strings_view(final(errors)@) == e,
                LineParse::Bad(m) => pairs_view(final(pairs)@) == p && strings_view(final(errors)@)
                    == e.push(m),
            }
        }),
{
    let ghost raw = chars@.subrange(from as int, to as int);
    let mut a = from;
    while a < to && chars[a] == '\u{feff}'
        invariant
            from <= a <= to <= chars@.len(),
            strip_leading(raw, '\u{feff}') == strip_leading(chars@.subrange(a as int, to as int), '\u{feff}'),
        decreases to - a,
    {
        assert(chars@.subrange(a as int, to as int).drop_first() == chars@.subrange(a + 1, to as int));
        a += 1;
    }
    assert(strip_leading(chars@.subrange(a as int, to as int), '\u{feff}') == chars@.subrange(a as int, to as int));
    let (s, e) = trim_range(chars, a, to);
    let ghost line = chars@.subrange(s as int, e as int);
    assert(line == trim(strip_leading(raw, '\u{feff}')));
    if s == e || chars[s] == '#' {
        return;
    }
    let k = match find_in(chars, s, e, '\t') {
        Some(k) => Some(k),
        None => match find_in(chars, s, e, '，') {
            Some(k) => Some(k),
            None => find_in(chars, s, e, ','),
        },
    };
    match k {
        None => {
            push_line_message(
                errors,
                loc,
                lineno,
                "行缺少分隔符（逗号或 Tab）",
                "missing separator (comma or tab)",
            );
        },
        Some(k) => {
            let m = s + k;
            assert(line.take(k as int) == chars@.subrange(s as int, m as int));
            assert(line.skip(k + 1) == chars@.subrange(m + 1, e as int));
            let (oa, ob) = trim_range(chars, s, m);
            let (na, nb) = trim_range(chars, m + 1, e);
            if oa == ob || na == nb {
                push_line_message(
                    errors,
                    loc,
                    lineno,
                    "行缺少旧文件名或新文件名",
                    "missing old or new file name",
                );
            } else {
                let old_name = string_of(chars, oa, ob);
                let new_name = string_of(chars, na, nb);
                pairs.push((old_name, new_name));
                assert(pairs_view(pairs@) =~= pairs_view(old(pairs)@).push(
                    (pairs@.last().0@, pairs@.last().1@),
                ));
            }
        },
    }
}

/// Reads a mapping text: one `old,new` pair per line, separated by a tab, a
/// full-width comma or a comma (tried in that order); `#` starts a comment;
/// blank lines and byte-order marks are ignored. Returns the pairs and a
/// message for each malformed line, both in text order.
pub fn parse_mapping(loc: Locale, text: &str) -> (res: (Vec<(String, String)>, Vec<String>))
    ensures
        (pairs_view(res.0@), strings_view(res.1@)) == parse_mapping_spec(loc, text@),
{
    let chars = chars_of(text);
    let n = chars.len();
    let mut pairs: Vec<(String, String)> = Vec::new();
    let mut errors: Vec<String> = Vec::new();
    let ghost mut done: Seq<Seq<char>> = seq![];
    let mut start: usize = 0;
    let mut lineno: u128 = 1;
    let mut i: usize = 0;
    assert(pairs_view(pairs@) =~= seq![]);
    assert(strings_view(errors@) =~= seq![]);
    assert(chars@.take(0) =~= seq![]);
    assert(chars@.subrange(0, 0) =~= seq![]);
    while i < n
        invariant
            n == chars@.len(),
            start <= i <= n,
            lineno == done.len() + 1,
            done.len() <= i,
            done.push(chars@.subrange(start as int, i as int)) == split_lines(chars@.take(i as int)),
            (pairs_view(pairs@), strings_view(errors@)) == parse_lines(loc, done),
        decreases n - i,
    {
        let ghost before = chars@.take(i as int);
        assert(chars@.take(i + 1).drop_last() == before);
        proof {
            lemma_split_lines_nonempty(before);
        }
        if chars[i] == '\n' {
            parse_one_line(loc, &chars, start, i, lineno, &mut pairs, &mut errors);
            proof {
                let line = chars@.subrange(start as int, i as int);
                let d2 = done.push(line);
                assert(d2.drop_last() == done);
                assert(d2.last() == line);
                done = d2;
                assert(chars@.subrange(i + 1, i + 1) =~= seq![]);
                assert(split_lines(chars@.take(i + 1)) == split_lines(before).push(seq![]));
            }
            lineno = lineno + 1;
            start = i + 1;
        } else {
            proof {
                assert(chars@.subrange(start as int, i + 1) == chars@.subrange(start as int, i as int).push(chars@[i as int]));
                assert(done.push(chars@.subrange(start as int, i + 1)) =~= done.push(chars@.subrange(start as int, i as int)).update(done.len() as int, chars@.subrange(start as int, i as int).push(chars@[i as int])));
            }
        }
        i += 1;
    }
    parse_one_line(loc, &chars, start, n, lineno, &mut pairs, &mut errors);
    proof {
        let line = chars@.subrange(start as int, n as int);
        let d2 = done.push(line);
        assert(d2.drop_last() == done);
        assert(chars@.take(n as int) =~= chars@);
        assert(chars@ == text@);
    }
    (pairs, errors)
}

// ================================================================== planning

/// Abstract value of a list of renames: `(from, to)` pairs.
pub open spec fn renames_view(v: Seq<AppliedRename>) -> Seq<(Seq<char>, Seq<char>)> {
    v.map_values(|r: AppliedRename| (r.from@, r.to@))
}

/// The decisions taken so far while planning a batch.
pub struct PlanState {
    pub errors: Seq<EntryView>,
    pub skipped: Seq<EntryView>,
    /// Renames accepted, as `(old, target)`.
    pub moves: Seq<(Seq<char>, Seq<char>)>,
}

/// The name a file gets: the new name, with the old name's extension
/// appended when the new name has none.
pub open spec fn target_name(old: Seq<char>, new: Seq<char>) -> Seq<char> {
    if ext_spec(new) is None && ext_spec(old) is Some {
        new + "."@ + ext_spec(old).unwrap()
    } else {
        new
    }
}

/// Whether an old name holds a path separator.
pub open spec fn has_separator(old: Seq<char>) -> bool {
    find_char(old, '\\') is Some || find_char(old, '/') is Some
}

/// Index of the first accepted rename, from `from` on, whose target equals
/// `lower` once lower-cased.
pub open spec fn owner_from(moves: Seq<(Seq<char>, Seq<char>)>, lower: Seq<char>, from: int) -> Option<
    int,
>
    decreases moves.len() - from,
{
    if from < 0 || from >= moves.len() {
        None
    } else if lowercase(moves[from].1) == lower {
        Some(from)
    } else {
        owner_from(moves, lower, from + 1)
    }
}

/// The decision on one mapping entry `old -> new`, given the lower-cased
/// names of the folder's files and of all the batch's sources, and whether
/// `old` is a file of the folder.
pub open spec fn plan_step(
    loc: Locale,
    existing_lower: Seq<Seq<char>>,
    sources_lower: Seq<Seq<char>>,
    st: PlanState,
    old: Seq<char>,
    new: Seq<char>,
    present: bool,
) -> PlanState {
    let reject = |m: Seq<char>| PlanState { errors: st.errors.push(note_entry(old, m)), ..st };
    if has_separator(old) {
        reject(tr_spec(loc, "旧文件名不能包含路径分隔符"@, "Old name cannot contain path separators"@))
    } else if !present {
        reject(tr_spec(loc, "文件不存在"@, "File not found"@))
    } else {
        let t = target_name(old, new);
        match name_verdict(loc, t) {
            Err(m) => reject(m),
            Ok(()) => if t == old {
                PlanState {
                    skipped: st.skipped.push(
                        note_entry(old, tr_spec(loc, "新旧文件名相同"@, "New name is same as old"@)),
                    ),
                    ..st
                }
            } else {
                let lt = lowercase(t);
                match owner_from(st.moves, lt, 0) {
                    Some(j) => reject(
                        t + " "@ + tr_spec(
                            loc,
                            "与另一条映射目标重复，来源"@,
                            "duplicates the target of"@,
                        ) + " "@ + st.moves[j].0,
                    ),
                    None => if existing_lower.contains(lt) && !sources_lower.contains(lt) && lt
                        != lowercase(old) {
                        reject(
                            tr_spec(loc, "目标文件已存在"@, "Target file already exists"@) + ": "@
                                + t,
                        )
                    } else {
                        PlanState { moves: st.moves.push((old, t)), ..st }
                    },
                }
            },
        }
    }
}

/// The decisions on the first `n` entries of a mapping.
pub open spec fn plan_upto(
    loc: Locale,
    existing: Seq<Seq<char>>,
    mapping: Seq<(Seq<char>, Seq<char>)>,
    present: Seq<bool>,
    n: int,
) -> PlanState
    decreases n,
{
    if n <= 0 {
        PlanState { errors: seq![], skipped: seq![], moves: seq![] }
    } else {
        plan_step(
            loc,
            existing.map_values(|e: Seq<char>| lowercase(e)),
            mapping.map_values(|p: (Seq<char>, Seq<char>)| lowercase(p.0)),
            plan_upto(loc, existing, mapping, present, n - 1),
            mapping[n - 1].0,
            mapping[n - 1].1,
            present[n - 1],
        )
    }
}

/// The lower-cased names.
pub open spec fn lowercase_names(names: Seq<Seq<char>>) -> Seq<Seq<char>> {
    names.map_values(|e: Seq<char>| lowercase(e))
}

/// The lower-cased sources of renames.
pub open spec fn sources_lower(moves: Seq<(Seq<char>, Seq<char>)>) -> Seq<Seq<char>> {
    moves.map_values(|m: (Seq<char>, Seq<char>)| lowercase(m.0))
}

/// Whether rename `m` among `moves` would land on a file of the folder
/// (lower-cased names `el`) that stays: its target is such a file, no rename
/// of `moves` moves that file away, and it is not `m`'s own source under
/// another case.
pub open spec fn blocked(
    el: Seq<Seq<char>>,
    moves: Seq<(Seq<char>, Seq<char>)>,
    m: (Seq<char>, Seq<char>),
) -> bool {
    let lt = lowercase(m.1);
    &&& el.contains(lt)
    &&& !sources_lower(moves).contains(lt)
    &&& lt != lowercase(m.0)
}

/// Index of the first blocked rename of `moves`, from `i` on.
pub open spec fn first_blocked_from(
    el: Seq<Seq<char>>,
    moves: Seq<(Seq<char>, Seq<char>)>,
    i: int,
) -> Option<int>
    decreases moves.len() - i,
{
    if i < 0 || i >= moves.len() {
        None
    } else if blocked(el, moves, moves[i]) {
        Some(i)
    } else {
        first_blocked_from(el, moves, i + 1)
    }
}

/// The error of a rename whose target is a file that stays.
pub open spec fn occupied_message(loc: Locale, t: Seq<char>) -> Seq<char> {
    tr_spec(loc, "目标文件已存在"@, "Target file already exists"@) + ": "@ + t
}

/// Withdraws blocked renames one at a time, the first in order each time,
/// reporting each as an error after `errors`, until none is blocked.
/// Withdrawing one keeps its source in place, which may block another.
pub open spec fn settle(
    loc: Locale,
    el: Seq<Seq<char>>,
    moves: Seq<(Seq<char>, Seq<char>)>,
    errors: Seq<EntryView>,
) -> (Seq<(Seq<char>, Seq<char>)>, Seq<EntryView>)
    decreases moves.len(),
{
    match first_blocked_from(el, moves, 0) {
        Some(j) => if 0 <= j < moves.len() {
            settle(
                loc,
                el,
                moves.remove(j),
                errors.push(note_entry(moves[j].0, occupied_message(loc, moves[j].1))),
            )
        } else {
            (moves, errors)
        },
        None => (moves, errors),
    }
}

/// The decisions on a whole mapping: each entry decided in turn, then the
/// renames whose target would stay occupied withdrawn.
pub open spec fn plan_spec(
    loc: Locale,
    existing: Seq<Seq<char>>,
    mapping: Seq<(Seq<char>, Seq<char>)>,
    present: Seq<bool>,
) -> PlanState {
    let st = plan_upto(loc, existing, mapping, present, mapping.len() as int);
    let (moves, errors) = settle(loc, lowercase_names(existing), st.moves, st.errors);
    PlanState { errors, skipped: st.skipped, moves }
}

/// The line a preview shows for a planned rename.
pub open spec fn preview_entry(loc: Locale, m: (Seq<char>, Seq<char>)) -> EntryView {
    EntryView { file: m.0, output: Some(m.1), detail: Some(tr_spec(loc, "预览"@, "preview"@)) }
}

fn lowercase_all(v: &Vec<String>) -> (res: Vec<String>)
    ensures
        strings_view(res@) == strings_view(v@).map_values(|e: Seq<char>| lowercase(e)),
{
    let mut out: Vec<String> = Vec::new();
    for i in 0..v.len()
        invariant
            out@.len() == i,
            forall|j: int| 0 <= j < i ==> (#[trigger] out@[j])@ == lowercase(v@[j]@),
    {
        out.push(to_lowercase(v[i].as_str()));
    }
    assert(strings_view(out@) =~= strings_view(v@).map_values(|e: Seq<char>| lowercase(e)));
    out
}

fn lowercase_sources(mapping: &Vec<(String, String)>) -> (res: Vec<String>)
    ensures
        strings_view(res@) == pairs_view(mapping@).map_values(
            |p: (Seq<char>, Seq<char>)| lowercase(p.0),
        ),
{
    let mut out: Vec<String> = Vec::new();
    for i in 0..mapping.len()
        invariant
            out@.len() == i,
            forall|j: int| 0 <= j < i ==> (#[trigger] out@[j])@ == lowercase(mapping@[j].0@),
    {
        out.push(to_lowercase(mapping[i].0.as_str()));
    }
    assert(strings_view(out@) =~= pairs_view(mapping@).map_values(
        |p: (Seq<char>, Seq<char>)| lowercase(p.0),
    ));
    out
}

fn contains_string(v: &Vec<String>, s: &String) -> (res: bool)
    ensures
        res == strings_view(v@).contains(s@),
{
    for i in 0..v.len()
        invariant
            forall|j: int| 0 <= j < i ==> (#[trigger] v@[j])@ != s@,
    {
        if v[i] == *s {
            assert(strings_view(v@)[i as int] == s@);
            return true;
        }
    }
    false
}

fn contains_char(s: &str, c: char) -> (res: bool)
    ensures
        res == (find_char(s@, c) is Some),
{
    let chars = chars_of(s);
    let n = chars.len();
    assert(chars@.subrange(0, n as int) == s@);
    find_in(&chars, 0, n, c).is_some()
}

/// The target of the first accepted rename whose lower-cased target is `lt`.
fn find_owner(taken: &Vec<String>, lt: &String, Ghost(moves): Ghost<Seq<(Seq<char>, Seq<char>)>>) -> (res: Option<usize>)
    requires
        taken@.len() == moves.len(),
        forall|j: int| 0 <= j < moves.len() ==> (#[trigger] taken@[j])@ == lowercase(moves[j].1),
    ensures
        res matches Some(j) ==> owner_from(moves, lt@, 0) == Some(j as int) && j < taken@.len(),
        res is None ==> owner_from(moves, lt@, 0) is None,
{
    let mut i: usize = 0;
    while i < taken.len()
        invariant
            i <= taken@.len() == moves.len(),
            forall|j: int| 0 <= j < moves.len() ==> (#[trigger] taken@[j])@ == lowercase(moves[j].1),
            owner_from(moves, lt@, 0) == owner_from(moves, lt@, i as int),
        decreases taken@.len() - i,
    {
        if taken[i] == *lt {
            return Some(i);
        }
        i += 1;
    }
    None
}

/// The name `old` gets for `new`: `new`, with `old`'s extension appended
/// when `new` has none.
pub fn target_name_of(old: &str, new: &str) -> (res: String)
    ensures
        res@ == target_name(old@, new@),
{
    let mut t = new.to_owned();
    if ext_of(new).is_none() {
        if let Some(e) = ext_of(old) {
            push_str(&mut t, ".");
            push_str(&mut t, e);
        }
    }
    t
}


/// Takes the decision on one mapping entry, recording it in `report`,
/// `moves` and `taken` (the lower-cased targets of `moves`).
#[verifier::rlimit(50)]
fn plan_one(
    loc: Locale,
    existing_lower: &Vec<String>,
    sources_lower: &Vec<String>,
    old_name: &String,
    new_name: &String,
    present: bool,
    report: &mut Report,
    moves: &mut Vec<AppliedRename>,
    taken: &mut Vec<String>,
    Ghost(el): Ghost<Seq<Seq<char>>>,
    Ghost(sl): Ghost<Seq<Seq<char>>>,
)
    requires
        strings_view(existing_lower@) == el,
        strings_view(sources_lower@) == sl,
        old(taken)@.len() == old(moves)@.len(),
        forall|j: int| 0 <= j < old(moves)@.len() ==> (#[trigger] old(taken)@[j])@ == lowercase(old(moves)@[j].to@),
    ensures
        ({
            let st = PlanState {
                errors: old(report)@.errors,
                skipped: old(report)@.skipped,
                moves: renames_view(old(moves)@),
            };
            let st2 = plan_step(loc, el, sl, st, old_name@, new_name@, present);
            &&& final(report)@.errors == st2.errors
            &&& final(report)@.skipped == st2.skipped
            &&& renames_view(final(moves)@) == st2.moves
        }),
        final(report)@.ok == old(report)@.ok,
        final(report)@.dry_run == old(report)@.dry_run,
        final(taken)@.len() == final(moves)@.len(),
        forall|j: int| 0 <= j < final(moves)@.len() ==> (#[trigger] final(taken)@[j])@ == lowercase(final(moves)@[j].to@),
{
    let ghost rv = renames_view(moves@);
        if contains_char(old_name.as_str(), '\\') || contains_char(old_name.as_str(), '/') {
            report.push_err(old_name.clone(), tr(loc, "旧文件名不能包含路径分隔符", "Old name cannot contain path separators"));
            return;
        }
        if !present {
            report.push_err(old_name.clone(), tr(loc, "文件不存在", "File not found"));
            return;
        }
        let t = target_name_of(old_name.as_str(), new_name.as_str());
        match validate_new_name(loc, t.as_str()) {
            Err(m) => {
                report.push_err(old_name.clone(), m);
                return;
            },
            Ok(()) => {},
        }
        if t == *old_name {
            report.push_skip(old_name.clone(), tr(loc, "新旧文件名相同", "New name is same as old"));
            return;
        }
        let lt = to_lowercase(t.as_str());
        match find_owner(taken, &lt, Ghost(rv)) {
            Some(j) => {
                let mut m = t.clone();
                push_str(&mut m, " ");
                let d = tr(loc, "与另一条映射目标重复，来源", "duplicates the target of");
                push_str(&mut m, d.as_str());
                push_str(&mut m, " ");
                push_str(&mut m, moves[j].from.as_str());
                report.push_err(old_name.clone(), m);
                return;
            },
            None => {},
        }
        let lo = to_lowercase(old_name.as_str());
        if contains_string(existing_lower, &lt) && !contains_string(sources_lower, &lt) && lt != lo {
            let mut m = tr(loc, "目标文件已存在", "Target file already exists");
            push_str(&mut m, ": ");
            push_str(&mut m, t.as_str());
            report.push_err(old_name.clone(), m);
            return;
        }
        moves.push(AppliedRename { from: old_name.clone(), to: t });
        taken.push(lt);
        assert(renames_view(moves@) =~= rv.push((old_name@, moves@.last().to@)));
    }

fn lowercase_move_sources(moves: &Vec<AppliedRename>) -> (res: Vec<String>)
    ensures
        strings_view(res@) == sources_lower(renames_view(moves@)),
{
    let mut out: Vec<String> = Vec::new();
    for i in 0..moves.len()
        invariant
            out@.len() == i,
            forall|j: int| 0 <= j < i ==> (#[trigger] out@[j])@ == lowercase(moves@[j].from@),
    {
        out.push(to_lowercase(moves[i].from.as_str()));
    }
    assert(strings_view(out@) =~= sources_lower(renames_view(moves@)));
    out
}

/// Index of the first blocked rename of `moves`.
fn find_blocked(existing_lower: &Vec<String>, moves: &Vec<AppliedRename>, Ghost(el): Ghost<
    Seq<Seq<char>>,
>) -> (res: Option<usize>)
    requires
        strings_view(existing_lower@) == el,
    ensures
        res matches Some(j) ==> first_blocked_from(el, renames_view(moves@), 0) == Some(j as int),
        res is None ==> first_blocked_from(el, renames_view(moves@), 0) is None,
{
    let ghost mv = renames_view(moves@);
    let srcs = lowercase_move_sources(moves);
    let mut i: usize = 0;
    while i < moves.len()
        invariant
            i <= moves@.len(),
            mv == renames_view(moves@),
            strings_view(existing_lower@) == el,
            strings_view(srcs@) == sources_lower(mv),
            first_blocked_from(el, mv, 0) == first_blocked_from(el, mv, i as int),
        decreases moves@.len() - i,
    {
        let lt = to_lowercase(moves[i].to.as_str());
        let lo = to_lowercase(moves[i].from.as_str());
        assert(mv[i as int] == (moves@[i as int].from@, moves@[i as int].to@));
        if contains_string(existing_lower, &lt) && !contains_string(&srcs, &lt) && lt != lo {
            return Some(i);
        }
        i += 1;
    }
    None
}

/// Withdraws the blocked renames of `moves` as [`settle`] states, reporting
/// each as an error.
fn settle_moves(
    loc: Locale,
    existing_lower: &Vec<String>,
    report: &mut Report,
    moves: &mut Vec<AppliedRename>,
    Ghost(el): Ghost<Seq<Seq<char>>>,
)
    requires
        strings_view(existing_lower@) == el,
    ensures
        (renames_view(final(moves)@), final(report)@.errors) == settle(
            loc,
            el,
            renames_view(old(moves)@),
            old(report)@.errors,
        ),
        final(report)@.ok == old(report)@.ok,
        final(report)@.skipped == old(report)@.skipped,
        final(report)@.dry_run == old(report)@.dry_run,
{
    let ghost goal = settle(loc, el, renames_view(moves@), report@.errors);
    loop
        invariant
            strings_view(existing_lower@) == el,
            goal == settle(loc, el, renames_view(old(moves)@), old(report)@.errors),
            settle(loc, el, renames_view(moves@), report@.errors) == goal,
            report@.ok == old(report)@.ok,
            report@.skipped == old(report)@.skipped,
            report@.dry_run == old(report)@.dry_run,
        decreases moves@.len(),
    {
        match find_blocked(existing_lower, moves, Ghost(el)) {
            None => {
                assert(settle(loc, el, renames_view(moves@), report@.errors) == (
                    renames_view(moves@),
                    report@.errors,
                ));
                assert(renames_view(moves@) == goal.0);
                assert(report@.errors == goal.1);
                return;
            },
            Some(j) => {
                let ghost mv = renames_view(moves@);
                let ghost errs = report@.errors;
                proof {
                    lemma_first_blocked_some(el, mv, 0);
                }
                let m = moves.remove(j);
                assert(renames_view(moves@) =~= mv.remove(j as int));
                let mut msg = tr(loc, "目标文件已存在", "Target file already exists");
                push_str(&mut msg, ": ");
                push_str(&mut msg, m.to.as_str());
                report.push_err(m.from, msg);
                assert(report@.errors == errs.push(
                    note_entry(mv[j as int].0, occupied_message(loc, mv[j as int].1)),
                ));
            },
        }
    }
}

/// Plans a batch of renames from `mapping` (pairs `old, new`) in a folder
/// whose files are `existing`, where `present[i]` tells whether the old name
/// of entry `i` is a file of the folder. Each entry is refused (path
/// separator, missing file, bad new name, target taken by an earlier entry,
/// target already a file that no entry renames away), skipped (same name), or
/// accepted. Then accepted renames whose target is a file that no accepted
/// rename moves away are withdrawn and reported, one at a time, until none is
/// left (see [`settle`]). Names are compared without regard to case. Returns
/// the report (a preview lists the planned renames as done) and the planned
/// renames, in mapping order.
pub fn plan_renames(
    loc: Locale,
    existing: &Vec<String>,
    mapping: &Vec<(String, String)>,
    present: &Vec<bool>,
    execute: bool,
) -> (res: (Report, Vec<AppliedRename>))
    requires
        present@.len() == mapping@.len(),
    ensures
        ({
            let st = plan_spec(loc, strings_view(existing@), pairs_view(mapping@), present@);
            &&& res.0@.dry_run == !execute
            &&& res.0@.errors == st.errors
            &&& res.0@.skipped == st.skipped
            &&& res.0@.ok == if execute {
                Seq::<EntryView>::empty()
            } else {
                st.moves.map_values(|m: (Seq<char>, Seq<char>)| preview_entry(loc, m))
            }
            &&& renames_view(res.1@) == st.moves
        }),
{
    let ghost ev = strings_view(existing@);
    let ghost mv = pairs_view(mapping@);
    let existing_lower = lowercase_all(existing);
    let sources_lower = lowercase_sources(mapping);
    let mut report = Report::new(!execute);
    let mut moves: Vec<AppliedRename> = Vec::new();
    let mut taken: Vec<String> = Vec::new();
    let n = mapping.len();
    for i in 0..n
        invariant
            n == mapping@.len() == present@.len(),
            ev == strings_view(existing@),
            mv == pairs_view(mapping@),
            strings_view(existing_lower@) == ev.map_values(|e: Seq<char>| lowercase(e)),
            strings_view(sources_lower@) == mv.map_values(|p: (Seq<char>, Seq<char>)| lowercase(p.0)),
            report@.dry_run == !execute,
            report@.ok.len() == 0,
            report@.errors == plan_upto(loc, ev, mv, present@, i as int).errors,
            report@.skipped == plan_upto(loc, ev, mv, present@, i as int).skipped,
            renames_view(moves@) == plan_upto(loc, ev, mv, present@, i as int).moves,
            taken@.len() == moves@.len(),
            forall|j: int| 0 <= j < moves@.len() ==> (#[trigger] taken@[j])@ == lowercase(moves@[j].to@),
    {
        let ghost st = plan_upto(loc, ev, mv, present@, i as int);
        assert(mv[i as int] == (mapping@[i as int].0@, mapping@[i as int].1@));
        assert(plan_upto(loc, ev, mv, present@, i + 1) == plan_step(
            loc,
            ev.map_values(|e: Seq<char>| lowercase(e)),
            mv.map_values(|p: (Seq<char>, Seq<char>)| lowercase(p.0)),
            st,
            mapping@[i as int].0@,
            mapping@[i as int].1@,
            present@[i as int],
        ));
        plan_one(
            loc,
            &existing_lower,
            &sources_lower,
            &mapping[i].0,
            &mapping[i].1,
            present[i],
            &mut report,
            &mut moves,
            &mut taken,
            Ghost(ev.map_values(|e: Seq<char>| lowercase(e))),
            Ghost(mv.map_values(|p: (Seq<char>, Seq<char>)| lowercase(p.0))),
        );
    }
    settle_moves(loc, &existing_lower, &mut report, &mut moves, Ghost(lowercase_names(ev)));
    let ghost fin = plan_spec(loc, ev, mv, present@);
    proof {
        assert(report@.ok =~= Seq::<EntryView>::empty());
        assert(renames_view(moves@) == fin.moves);
    }
    if !execute {
        let k = moves.len();
        for j in 0..k
            invariant
                k == moves@.len(),
                report@.ok == renames_view(moves@).take(j as int).map_values(
                    |m: (Seq<char>, Seq<char>)| preview_entry(loc, m),
                ),
                report@.errors == fin.errors,
                report@.skipped == fin.skipped,
                report@.dry_run == !execute,
        {
            let p = tr(loc, "预览", "preview");
            report.push_ok(moves[j].from.clone(), Some(moves[j].to.clone()), Some(p));
            assert(renames_view(moves@).take(j + 1) == renames_view(moves@).take(j as int).push(
                renames_view(moves@)[j as int],
            ));
        }
        assert(renames_view(moves@).take(k as int) == renames_view(moves@));
    }
    (report, moves)
}

// ================================================================== execution

/// Name of the temporary file that planned rename `i` passes through:
/// `.pic-rename-<stamp in hex>-<i>`.
pub open spec fn temp_name_spec(stamp: nat, i: nat) -> Seq<char> {
    ".pic-rename-"@ + hex(stamp) + "-"@ + dec(i)
}

/// The temporary name for planned rename `i` of a batch started at `stamp`
/// (nanoseconds since the epoch).
pub fn temp_name(stamp: u128, i: usize) -> (res: String)
    ensures
        res@ == temp_name_spec(stamp as nat, i as nat),
{
    let mut s = String::new();
    push_str(&mut s, ".pic-rename-");
    push_hex(&mut s, stamp);
    push_str(&mut s, "-");
    push_dec(&mut s, i as u128);
    s
}

/// Name of the undo log of a batch executed at `secs` seconds since the
/// epoch: `pic-rename-undo-<secs>.json`.
pub open spec fn undo_log_name_spec(secs: nat) -> Seq<char> {
    "pic-rename-undo-"@ + dec(secs) + ".json"@
}

/// The file name of the undo log written at `secs` seconds since the epoch.
pub fn undo_log_name(secs: u64) -> (res: String)
    ensures
        res@ == undo_log_name_spec(secs as nat),
{
    let mut s = String::new();
    push_str(&mut s, "pic-rename-undo-");
    push_dec(&mut s, secs as u128);
    push_str(&mut s, ".json");
    s
}

/// Message for a file that could not be moved aside.
pub open spec fn stage_error(loc: Locale, e: Seq<char>) -> Seq<char> {
    tr_spec(loc, "改名失败"@, "Rename failed"@) + ": "@ + e
}

/// Message for a file that could not take its new name and was moved back.
pub open spec fn finish_error(loc: Locale, e: Seq<char>) -> Seq<char> {
    tr_spec(loc, "改名失败（已回滚）"@, "Rename failed (rolled back)"@) + ": "@ + e
}

/// First phase, over the first `n` planned renames: with `outcome[i]`
/// `None` when moving file `i` to its temporary name succeeded and
/// `Some(error)` when it failed, the errors recorded and the renames staged.
pub open spec fn stage_upto(
    loc: Locale,
    moves: Seq<(Seq<char>, Seq<char>)>,
    outcome: Seq<Option<Seq<char>>>,
    n: int,
) -> (Seq<EntryView>, Seq<int>)
    decreases n,
{
    if n <= 0 {
        (seq![], seq![])
    } else {
        let (e, st) = stage_upto(loc, moves, outcome, n - 1);
        match outcome[n - 1] {
            None => (e, st.push(n - 1)),
            Some(err) => (e.push(note_entry(moves[n - 1].0, stage_error(loc, err))), st),
        }
    }
}

/// Second phase, over the first `n` staged renames (indices into `moves`):
/// with `outcome[k]` `None` when the `k`-th staged file took its new name,
/// the files reported done, the errors, and the renames applied.
pub open spec fn finish_upto(
    loc: Locale,
    moves: Seq<(Seq<char>, Seq<char>)>,
    staged: Seq<int>,
    outcome: Seq<Option<Seq<char>>>,
    n: int,
) -> (Seq<EntryView>, Seq<EntryView>, Seq<(Seq<char>, Seq<char>)>)
    decreases n,
{
    if n <= 0 {
        (seq![], seq![], seq![])
    } else {
        let (ok, e, ap) = finish_upto(loc, moves, staged, outcome, n - 1);
        let m = moves[staged[n - 1]];
        match outcome[n - 1] {
            None => (ok.push(EntryView { file: m.0, output: Some(m.1), detail: None }), e, ap.push(m)),
            Some(err) => (ok, e.push(note_entry(m.0, finish_error(loc, err))), ap),
        }
    }
}

/// Records the first phase for planned rename `i`: on success it is staged
/// for the second phase, on failure its error is reported.
pub fn record_staged(
    loc: Locale,
    report: &mut Report,
    staged: &mut Vec<usize>,
    moves: &Vec<AppliedRename>,
    i: usize,
    outcome: Result<(), String>,
)
    requires
        i < moves@.len(),
    ensures
        final(report)@.ok == old(report)@.ok,
        final(report)@.skipped == old(report)@.skipped,
        final(report)@.dry_run == old(report)@.dry_run,
        match outcome {
            Ok(()) => final(staged)@ == old(staged)@.push(i) && final(report)@.errors == old(
                report,
            )@.errors,
            Err(e) => final(staged)@ == old(staged)@ && final(report)@.errors == old(
                report,
            )@.errors.push(note_entry(moves@[i as int].from@, stage_error(loc, e@))),
        },
{
    match outcome {
        Ok(()) => staged.push(i),
        Err(e) => {
            let mut m = tr(loc, "改名失败", "Rename failed");
            push_str(&mut m, ": ");
            push_str(&mut m, e.as_str());
            report.push_err(moves[i].from.clone(), m);
        },
    }
}

/// Records the second phase for planned rename `i`: on success it is
/// reported done and counted as applied; on failure its error is reported and
/// `true` is returned: the file must be moved back to its old name.
pub fn record_finished(
    loc: Locale,
    report: &mut Report,
    applied: &mut Vec<AppliedRename>,
    moves: &Vec<AppliedRename>,
    i: usize,
    outcome: Result<(), String>,
) -> (rollback: bool)
    requires
        i < moves@.len(),
    ensures
        final(report)@.skipped == old(report)@.skipped,
        final(report)@.dry_run == old(report)@.dry_run,
        rollback == (outcome is Err),
        match outcome {
            Ok(()) => final(report)@.ok == old(report)@.ok.push(
                EntryView {
                    file: moves@[i as int].from@,
                    output: Some(moves@[i as int].to@),
                    detail: None,
                },
            ) && final(report)@.errors == old(report)@.errors && renames_view(final(applied)@)
                == renames_view(old(applied)@).push(
                (moves@[i as int].from@, moves@[i as int].to@),
            ),
            Err(e) => final(report)@.ok == old(report)@.ok && final(report)@.errors == old(
                report,
            )@.errors.push(note_entry(moves@[i as int].from@, finish_error(loc, e@)))
                && final(applied)@ == old(applied)@,
        },
{
    match outcome {
        Ok(()) => {
            report.push_ok(moves[i].from.clone(), Some(moves[i].to.clone()), None);
            applied.push(AppliedRename { from: moves[i].from.clone(), to: moves[i].to.clone() });
            assert(renames_view(applied@) =~= renames_view(old(applied)@).push(
                (moves@[i as int].from@, moves@[i as int].to@),
            ));
            false
        },
        Err(e) => {
            let mut m = tr(loc, "改名失败（已回滚）", "Rename failed (rolled back)");
            push_str(&mut m, ": ");
            push_str(&mut m, e.as_str());
            report.push_err(moves[i].from.clone(), m);
            true
        },
    }
}

// ================================================================== laws

proof fn lemma_owner_none(moves: Seq<(Seq<char>, Seq<char>)>, lower: Seq<char>, from: int)
    requires
        0 <= from,
        owner_from(moves, lower, from) is None,
    ensures
        forall|j: int| from <= j < moves.len() ==> lowercase(#[trigger] moves[j].1) != lower,
    decreases moves.len() - from,
{
    if from < moves.len() {
        lemma_owner_none(moves, lower, from + 1);
    }
}

/// The first pass decides every entry once: refused, skipped, or accepted.
proof fn lemma_first_pass_accounts(
    loc: Locale,
    existing: Seq<Seq<char>>,
    mapping: Seq<(Seq<char>, Seq<char>)>,
    present: Seq<bool>,
    n: int,
)
    requires
        0 <= n <= mapping.len(),
        present.len() == mapping.len(),
    ensures
        ({
            let st = plan_upto(loc, existing, mapping, present, n);
            st.errors.len() + st.skipped.len() + st.moves.len() == n
        }),
    decreases n,
{
    if n > 0 {
        lemma_first_pass_accounts(loc, existing, mapping, present, n - 1);
    }
}

/// One planning step either leaves the planned renames alone or adds
/// `(old, target)` under the conditions the step checks.
proof fn lemma_plan_step_moves(
    loc: Locale,
    el: Seq<Seq<char>>,
    sl: Seq<Seq<char>>,
    st: PlanState,
    old: Seq<char>,
    new: Seq<char>,
    present: bool,
)
    ensures
        ({
            let r = plan_step(loc, el, sl, st, old, new, present);
            let t = target_name(old, new);
            ||| r.moves == st.moves
            ||| {
                &&& r.moves == st.moves.push((old, t))
                &&& !has_separator(old)
                &&& present
                &&& name_verdict(loc, t) is Ok
                &&& t != old
                &&& (el.contains(lowercase(t)) ==> sl.contains(lowercase(t)) || lowercase(t)
                    == lowercase(old))
                &&& forall|j: int| 0 <= j < st.moves.len() ==> lowercase(#[trigger] st.moves[j].1) != lowercase(t)
            }
        }),
{
    let t = target_name(old, new);
    if !has_separator(old) && present && name_verdict(loc, t) is Ok && t != old {
        if owner_from(st.moves, lowercase(t), 0) is None {
            lemma_owner_none(st.moves, lowercase(t), 0);
        }
    }
}

/// What the first pass accepts: each rename comes from an entry, passes the
/// checks of [`plan_step`], and no two targets are equal without regard to
/// case.
proof fn lemma_first_pass_safe(
    loc: Locale,
    existing: Seq<Seq<char>>,
    mapping: Seq<(Seq<char>, Seq<char>)>,
    present: Seq<bool>,
    n: int,
)
    requires
        0 <= n <= mapping.len(),
        present.len() == mapping.len(),
    ensures
        ({
            let moves = plan_upto(loc, existing, mapping, present, n).moves;
            let el = existing.map_values(|e: Seq<char>| lowercase(e));
            let sl = mapping.map_values(|p: (Seq<char>, Seq<char>)| lowercase(p.0));
            &&& forall|k: int|
                0 <= k < moves.len() ==> {
                    &&& !has_separator(#[trigger] moves[k].0)
                    &&& exists|i: int|
                        0 <= i < n && mapping[i].0 == moves[k].0 && present[i] && target_name(
                            moves[k].0,
                            mapping[i].1,
                        ) == moves[k].1
                    &&& name_verdict(loc, moves[k].1) is Ok
                    &&& moves[k].1 != moves[k].0
                    &&& (el.contains(lowercase(moves[k].1)) ==> sl.contains(lowercase(moves[k].1))
                        || lowercase(moves[k].1) == lowercase(moves[k].0))
                }
            &&& forall|k1: int, k2: int|
                0 <= k1 < k2 < moves.len() ==> lowercase(#[trigger] moves[k1].1) != lowercase(
                    #[trigger] moves[k2].1,
                )
        }),
    decreases n,
{
    if n > 0 {
        lemma_first_pass_safe(loc, existing, mapping, present, n - 1);
        let el = existing.map_values(|e: Seq<char>| lowercase(e));
        let sl = mapping.map_values(|p: (Seq<char>, Seq<char>)| lowercase(p.0));
        let st = plan_upto(loc, existing, mapping, present, n - 1);
        lemma_plan_step_moves(loc, el, sl, st, mapping[n - 1].0, mapping[n - 1].1, present[n - 1]);
        let moves = plan_upto(loc, existing, mapping, present, n).moves;
        assert forall|k: int| 0 <= k < moves.len() implies exists|i: int|
            0 <= i < n && mapping[i].0 == (#[trigger] moves[k]).0 && present[i] && target_name(
                moves[k].0,
                mapping[i].1,
            ) == moves[k].1 by {
            if k < st.moves.len() {
                assert(moves[k] == st.moves[k]);
                let i = choose|i: int|
                    0 <= i < n - 1 && mapping[i].0 == st.moves[k].0 && present[i] && target_name(
                        st.moves[k].0,
                        mapping[i].1,
                    ) == st.moves[k].1;
                assert(0 <= i < n);
            } else {
                assert(0 <= n - 1 < n);
            }
        }
    }
}

proof fn lemma_first_blocked_some(el: Seq<Seq<char>>, moves: Seq<(Seq<char>, Seq<char>)>, i: int)
    requires
        first_blocked_from(el, moves, i) is Some,
    ensures
        ({
            let j = first_blocked_from(el, moves, i).unwrap();
            0 <= i <= j < moves.len() && blocked(el, moves, moves[j])
        }),
    decreases moves.len() - i,
{
    if 0 <= i < moves.len() && !blocked(el, moves, moves[i]) {
        lemma_first_blocked_some(el, moves, i + 1);
    }
}

proof fn lemma_first_blocked_none(el: Seq<Seq<char>>, moves: Seq<(Seq<char>, Seq<char>)>, i: int)
    requires
        0 <= i,
        first_blocked_from(el, moves, i) is None,
    ensures
        forall|k: int| i <= k < moves.len() ==> !blocked(el, moves, #[trigger] moves[k]),
    decreases moves.len() - i,
{
    if i < moves.len() {
        lemma_first_blocked_none(el, moves, i + 1);
    }
}

proof fn lemma_none_blocked(el: Seq<Seq<char>>, moves: Seq<(Seq<char>, Seq<char>)>, i: int)
    requires
        0 <= i,
        forall|k: int| i <= k < moves.len() ==> !blocked(el, moves, #[trigger] moves[k]),
    ensures
        first_blocked_from(el, moves, i) is None,
    decreases moves.len() - i,
{
    if i < moves.len() {
        lemma_none_blocked(el, moves, i + 1);
    }
}

/// No two targets are equal without regard to case.
pub open spec fn targets_distinct(moves: Seq<(Seq<char>, Seq<char>)>) -> bool {
    forall|k1: int, k2: int|
        0 <= k1 < k2 < moves.len() ==> lowercase(#[trigger] moves[k1].1) != lowercase(
            #[trigger] moves[k2].1,
        )
}

proof fn lemma_remove_keeps(moves: Seq<(Seq<char>, Seq<char>)>, j: int, x: (Seq<char>, Seq<char>))
    requires
        0 <= j < moves.len(),
        moves.remove(j).contains(x),
    ensures
        moves.contains(x),
{
    let m2 = moves.remove(j);
    let i = choose|i: int| 0 <= i < m2.len() && m2[i] == x;
    if i < j {
        assert(moves[i] == m2[i]);
    } else {
        assert(moves[i + 1] == m2[i]);
    }
}

#[verifier::spinoff_prover]
proof fn lemma_remove_distinct(moves: Seq<(Seq<char>, Seq<char>)>, j: int)
    requires
        0 <= j < moves.len(),
        targets_distinct(moves),
    ensures
        targets_distinct(moves.remove(j)),
{
    let m2 = moves.remove(j);
    assert forall|k1: int, k2: int| 0 <= k1 < k2 < m2.len() implies lowercase(
        #[trigger] m2[k1].1,
    ) != lowercase(#[trigger] m2[k2].1) by {
        let i1 = if k1 < j { k1 } else { k1 + 1 };
        let i2 = if k2 < j { k2 } else { k2 + 1 };
        assert(m2[k1] == moves[i1]);
        assert(m2[k2] == moves[i2]);
    }
}

/// Settling withdraws renames into errors one for one, keeps only renames it
/// was given, leaves none blocked, and keeps targets distinct.
proof fn lemma_settle(
    loc: Locale,
    el: Seq<Seq<char>>,
    moves: Seq<(Seq<char>, Seq<char>)>,
    errors: Seq<EntryView>,
)
    ensures
        ({
            let r = settle(loc, el, moves, errors);
            &&& r.0.len() + r.1.len() == moves.len() + errors.len()
            &&& forall|k: int| 0 <= k < r.0.len() ==> moves.contains(#[trigger] r.0[k])
            &&& forall|k: int| 0 <= k < r.0.len() ==> !blocked(el, r.0, #[trigger] r.0[k])
            &&& targets_distinct(moves) ==> targets_distinct(r.0)
        }),
    decreases moves.len(),
{
    match first_blocked_from(el, moves, 0) {
        Some(j) => {
            lemma_first_blocked_some(el, moves, 0);
            let m2 = moves.remove(j);
            let e2 = errors.push(note_entry(moves[j].0, occupied_message(loc, moves[j].1)));
            lemma_settle(loc, el, m2, e2);
            let r = settle(loc, el, m2, e2);
            assert(r == settle(loc, el, moves, errors));
            assert forall|k: int| 0 <= k < r.0.len() implies moves.contains(#[trigger] r.0[k]) by {
                lemma_remove_keeps(moves, j, r.0[k]);
            }
            if targets_distinct(moves) {
                lemma_remove_distinct(moves, j);
            }
        },
        None => {
            lemma_first_blocked_none(el, moves, 0);
        },
    }
}

/// The files that a list of report entries names.
pub open spec fn entry_files(es: Seq<EntryView>) -> Seq<Seq<char>> {
    es.map_values(|e: EntryView| e.file)
}

/// The sources of renames.
pub open spec fn move_sources(moves: Seq<(Seq<char>, Seq<char>)>) -> Seq<Seq<char>> {
    moves.map_values(|m: (Seq<char>, Seq<char>)| m.0)
}

/// The old names that a planning state accounts for: the files of its
/// errors and skipped entries and the sources of its renames, counted with
/// their multiplicity.
pub open spec fn named_files(st: PlanState) -> Multiset<Seq<char>> {
    entry_files(st.errors).to_multiset().add(entry_files(st.skipped).to_multiset()).add(
        move_sources(st.moves).to_multiset(),
    )
}

proof fn lemma_plan_step_names(
    loc: Locale,
    el: Seq<Seq<char>>,
    sl: Seq<Seq<char>>,
    st: PlanState,
    old: Seq<char>,
    new: Seq<char>,
    present: bool,
)
    ensures
        named_files(plan_step(loc, el, sl, st, old, new, present)) =~= named_files(st).insert(old),
{
    broadcast use vstd::seq_lib::group_to_multiset_ensures, vstd::multiset::group_multiset_axioms;

    let r = plan_step(loc, el, sl, st, old, new, present);
    let ef = entry_files(st.errors);
    let sf = entry_files(st.skipped);
    let ms = move_sources(st.moves);
    if r.errors.len() == st.errors.len() + 1 {
        assert(r.skipped == st.skipped && r.moves == st.moves);
        assert(entry_files(r.errors) =~= ef.push(old));
    } else if r.skipped.len() == st.skipped.len() + 1 {
        assert(r.errors == st.errors && r.moves == st.moves);
        assert(entry_files(r.skipped) =~= sf.push(old));
    } else {
        lemma_plan_step_moves(loc, el, sl, st, old, new, present);
        assert(r.errors == st.errors && r.skipped == st.skipped);
        assert(r.moves == st.moves.push((old, target_name(old, new))));
        assert(move_sources(r.moves) =~= ms.push(old));
    }
}

proof fn lemma_first_pass_names(
    loc: Locale,
    existing: Seq<Seq<char>>,
    mapping: Seq<(Seq<char>, Seq<char>)>,
    present: Seq<bool>,
    n: int,
)
    requires
        0 <= n <= mapping.len(),
    ensures
        named_files(plan_upto(loc, existing, mapping, present, n)) =~= move_sources(
            mapping.take(n),
        ).to_multiset(),
    decreases n,
{
    broadcast use vstd::seq_lib::group_to_multiset_ensures, vstd::multiset::group_multiset_axioms;

    if n > 0 {
        lemma_first_pass_names(loc, existing, mapping, present, n - 1);
        lemma_plan_step_names(
            loc,
            existing.map_values(|e: Seq<char>| lowercase(e)),
            mapping.map_values(|p: (Seq<char>, Seq<char>)| lowercase(p.0)),
            plan_upto(loc, existing, mapping, present, n - 1),
            mapping[n - 1].0,
            mapping[n - 1].1,
            present[n - 1],
        );
        assert(move_sources(mapping.take(n)) =~= move_sources(mapping.take(n - 1)).push(
            mapping[n - 1].0,
        ));
    } else {
        assert(move_sources(mapping.take(0)) =~= Seq::<Seq<char>>::empty());
        assert(entry_files(Seq::<EntryView>::empty()) =~= Seq::<Seq<char>>::empty());
        assert(move_sources(Seq::<(Seq<char>, Seq<char>)>::empty()) =~= Seq::<Seq<char>>::empty());
    }
}

proof fn lemma_settle_names(
    loc: Locale,
    el: Seq<Seq<char>>,
    moves: Seq<(Seq<char>, Seq<char>)>,
    errors: Seq<EntryView>,
)
    ensures
        ({
            let r = settle(loc, el, moves, errors);
            entry_files(r.1).to_multiset().add(move_sources(r.0).to_multiset()) =~= entry_files(
                errors,
            ).to_multiset().add(move_sources(moves).to_multiset())
        }),
    decreases moves.len(),
{
    broadcast use vstd::seq_lib::group_to_multiset_ensures, vstd::multiset::group_multiset_axioms;

    match first_blocked_from(el, moves, 0) {
        Some(j) => {
            lemma_first_blocked_some(el, moves, 0);
            let m2 = moves.remove(j);
            let e2 = errors.push(note_entry(moves[j].0, occupied_message(loc, moves[j].1)));
            lemma_settle_names(loc, el, m2, e2);
            assert(move_sources(m2) =~= move_sources(moves).remove(j));
            assert(move_sources(moves)[j] == moves[j].0);
            assert(entry_files(e2) =~= entry_files(errors).push(moves[j].0));
            assert(move_sources(moves).to_multiset().count(moves[j].0) > 0);
        },
        None => {},
    }
}

/// Planning names every mapping entry's old name exactly once: the files of
/// the errors and skipped entries and the sources of the planned renames
/// are the mapping's old names, each as often as it occurs in the mapping.
pub proof fn law_plan_names_every_entry_once(
    loc: Locale,
    existing: Seq<Seq<char>>,
    mapping: Seq<(Seq<char>, Seq<char>)>,
    present: Seq<bool>,
)
    requires
        present.len() == mapping.len(),
    ensures
        named_files(plan_spec(loc, existing, mapping, present)) =~= move_sources(
            mapping,
        ).to_multiset(),
{
    broadcast use vstd::multiset::group_multiset_axioms;

    let n = mapping.len() as int;
    let st = plan_upto(loc, existing, mapping, present, n);
    lemma_first_pass_names(loc, existing, mapping, present, n);
    assert(mapping.take(n) =~= mapping);
    lemma_settle_names(loc, lowercase_names(existing), st.moves, st.errors);
    let r = settle(loc, lowercase_names(existing), st.moves, st.errors);
    let fin = plan_spec(loc, existing, mapping, present);
    assert(fin.errors == r.1 && fin.moves == r.0 && fin.skipped == st.skipped);
    let e1 = entry_files(r.1).to_multiset();
    let m1 = move_sources(r.0).to_multiset();
    let e0 = entry_files(st.errors).to_multiset();
    let m0 = move_sources(st.moves).to_multiset();
    let sk = entry_files(st.skipped).to_multiset();
    assert(e1.add(m1) =~= e0.add(m0));
    assert(e1.add(sk).add(m1) =~= e0.add(sk).add(m0)) by {
        assert forall|x: Seq<char>| #[trigger] e1.add(sk).add(m1).count(x) == e0.add(sk).add(m0).count(x) by {
            assert(e1.add(m1).count(x) == e0.add(m0).count(x));
        }
    }
}

/// Planning accounts for every mapping entry exactly once: it is refused,
/// skipped, or becomes a planned rename.
pub proof fn law_plan_accounts_for_every_entry(
    loc: Locale,
    existing: Seq<Seq<char>>,
    mapping: Seq<(Seq<char>, Seq<char>)>,
    present: Seq<bool>,
)
    requires
        present.len() == mapping.len(),
    ensures
        ({
            let st = plan_spec(loc, existing, mapping, present);
            st.errors.len() + st.skipped.len() + st.moves.len() == mapping.len()
        }),
{
    let st = plan_upto(loc, existing, mapping, present, mapping.len() as int);
    lemma_first_pass_accounts(loc, existing, mapping, present, mapping.len() as int);
    lemma_settle(loc, lowercase_names(existing), st.moves, st.errors);
}

/// Rename `m` comes from a mapping entry whose old name is a file of the
/// folder: `m`'s target is that entry's new name, with the old extension
/// when it has none.
pub open spec fn entry_of_move(
    mapping: Seq<(Seq<char>, Seq<char>)>,
    present: Seq<bool>,
    m: (Seq<char>, Seq<char>),
) -> bool {
    exists|i: int|
        0 <= i < mapping.len() && mapping[i].0 == m.0 && present[i] && target_name(
            m.0,
            mapping[i].1,
        ) == m.1
}

/// Rename `m` passes the checks on its names: no path separator in the
/// source, a target that passes the name check and differs from the source.
pub open spec fn move_checks_pass(loc: Locale, m: (Seq<char>, Seq<char>)) -> bool {
    &&& !has_separator(m.0)
    &&& name_verdict(loc, m.1) is Ok
    &&& m.1 != m.0
}

/// Every planned rename is safe to carry out: its source is a file of the
/// folder named by a mapping entry, without a path separator; its target is
/// that entry's new name (with the old extension when it has none), passes
/// the name check and differs from its source; no two targets are equal
/// without regard to case; and a target that is already a file of the folder
/// is the source of a planned rename, or the rename's own source under
/// another case (names compared without regard to case).
#[verifier::spinoff_prover]
pub proof fn law_planned_renames_are_safe(
    loc: Locale,
    existing: Seq<Seq<char>>,
    mapping: Seq<(Seq<char>, Seq<char>)>,
    present: Seq<bool>,
)
    requires
        present.len() == mapping.len(),
    ensures
        forall|k: int|
            0 <= k < plan_spec(loc, existing, mapping, present).moves.len() ==> entry_of_move(
                mapping,
                present,
                #[trigger] plan_spec(loc, existing, mapping, present).moves[k],
            ),
        forall|k: int|
            0 <= k < plan_spec(loc, existing, mapping, present).moves.len() ==> move_checks_pass(
                loc,
                #[trigger] plan_spec(loc, existing, mapping, present).moves[k],
            ),
        forall|k: int|
            0 <= k < plan_spec(loc, existing, mapping, present).moves.len() ==> !blocked(
                lowercase_names(existing),
                plan_spec(loc, existing, mapping, present).moves,
                #[trigger] plan_spec(loc, existing, mapping, present).moves[k],
            ),
        targets_distinct(plan_spec(loc, existing, mapping, present).moves),
{
    let n = mapping.len() as int;
    let st = plan_upto(loc, existing, mapping, present, n);
    let el = lowercase_names(existing);
    lemma_first_pass_safe(loc, existing, mapping, present, n);
    lemma_settle(loc, el, st.moves, st.errors);
    assert(targets_distinct(st.moves));
    let moves = plan_spec(loc, existing, mapping, present).moves;
    assert(moves == settle(loc, el, st.moves, st.errors).0);
    assert forall|k: int| 0 <= k < moves.len() implies entry_of_move(mapping, present, #[trigger] moves[k])
        && move_checks_pass(loc, moves[k]) by {
        assert(st.moves.contains(moves[k]));
        let q = choose|q: int| 0 <= q < st.moves.len() && st.moves[q] == moves[k];
        assert(st.moves[q] == moves[k]);
        assert(!has_separator(st.moves[q].0));
        let i = choose|i: int|
            0 <= i < n && mapping[i].0 == st.moves[q].0 && present[i] && target_name(
                st.moves[q].0,
                mapping[i].1,
            ) == st.moves[q].1;
        assert(0 <= i < mapping.len() && mapping[i].0 == moves[k].0 && present[i] && target_name(
            moves[k].0,
            mapping[i].1,
        ) == moves[k].1);
    }
}

/// The first phase of an execution accounts for every planned rename once:
/// it is either staged or reported as failed, and the staged renames keep
/// their order.
pub proof fn law_stage_accounts_for_every_rename(
    loc: Locale,
    moves: Seq<(Seq<char>, Seq<char>)>,
    outcome: Seq<Option<Seq<char>>>,
    n: int,
)
    requires
        0 <= n <= moves.len(),
        outcome.len() == moves.len(),
    ensures
        ({
            let (errors, staged) = stage_upto(loc, moves, outcome, n);
            &&& errors.len() + staged.len() == n
            &&& forall|k: int| 0 <= k < staged.len() ==> 0 <= #[trigger] staged[k] < n
            &&& forall|k1: int, k2: int|
                0 <= k1 < k2 < staged.len() ==> #[trigger] staged[k1] < #[trigger] staged[k2]
            &&& forall|k: int| 0 <= k < staged.len() ==> outcome[#[trigger] staged[k]] is None
        }),
    decreases n,
{
    if n > 0 {
        law_stage_accounts_for_every_rename(loc, moves, outcome, n - 1);
    }
}

/// The second phase accounts for every staged rename once: it is reported
/// done or failed, and the renames applied are exactly those reported done,
/// in the same order.
pub proof fn law_finish_applies_what_it_reports(
    loc: Locale,
    moves: Seq<(Seq<char>, Seq<char>)>,
    staged: Seq<int>,
    outcome: Seq<Option<Seq<char>>>,
    n: int,
)
    requires
        0 <= n <= staged.len(),
        outcome.len() == staged.len(),
        forall|k: int| 0 <= k < staged.len() ==> 0 <= #[trigger] staged[k] < moves.len(),
    ensures
        ({
            let (ok, errors, applied) = finish_upto(loc, moves, staged, outcome, n);
            &&& ok.len() + errors.len() == n
            &&& applied.len() == ok.len()
            &&& forall|k: int|
                0 <= k < ok.len() ==> (#[trigger] ok[k]).file == applied[k].0 && ok[k].output
                    == Some(applied[k].1)
        }),
    decreases n,
{
    if n > 0 {
        law_finish_applies_what_it_reports(loc, moves, staged, outcome, n - 1);
    }
}

/// The report line of a rename carried out.
pub open spec fn done_entry(m: (Seq<char>, Seq<char>)) -> EntryView {
    EntryView { file: m.0, output: Some(m.1), detail: None }
}

/// Outcomes of `n` file operations that all succeeded.
pub open spec fn all_succeeded(n: nat) -> Seq<Option<Seq<char>>> {
    Seq::new(n, |i: int| None::<Seq<char>>)
}

proof fn lemma_stage_all_succeed(loc: Locale, moves: Seq<(Seq<char>, Seq<char>)>, n: int)
    requires
        0 <= n <= moves.len(),
    ensures
        stage_upto(loc, moves, all_succeeded(moves.len()), n) == (
            Seq::<EntryView>::empty(),
            Seq::new(n as nat, |i: int| i),
        ),
    decreases n,
{
    if n > 0 {
        lemma_stage_all_succeed(loc, moves, n - 1);
        assert(Seq::new((n - 1) as nat, |i: int| i).push(n - 1) =~= Seq::new(n as nat, |i: int| i));
    } else {
        assert(Seq::new(0, |i: int| i) =~= Seq::<int>::empty());
    }
}

proof fn lemma_finish_all_succeed(loc: Locale, moves: Seq<(Seq<char>, Seq<char>)>, m: int)
    requires
        0 <= m <= moves.len(),
    ensures
        finish_upto(
            loc,
            moves,
            Seq::new(moves.len(), |i: int| i),
            all_succeeded(moves.len()),
            m,
        ) == (
            moves.take(m).map_values(|x: (Seq<char>, Seq<char>)| done_entry(x)),
            Seq::<EntryView>::empty(),
            moves.take(m),
        ),
    decreases m,
{
    if m > 0 {
        lemma_finish_all_succeed(loc, moves, m - 1);
        assert(moves.take(m - 1).push(moves[m - 1]) =~= moves.take(m));
        assert(moves.take(m - 1).map_values(|x: (Seq<char>, Seq<char>)| done_entry(x)).push(
            done_entry(moves[m - 1]),
        ) =~= moves.take(m).map_values(|x: (Seq<char>, Seq<char>)| done_entry(x)));
    } else {
        assert(moves.take(0) =~= Seq::<(Seq<char>, Seq<char>)>::empty());
        assert(moves.take(0).map_values(|x: (Seq<char>, Seq<char>)| done_entry(x)) =~= Seq::<
            EntryView,
        >::empty());
    }
}

/// A preview and an execution of the same mapping on the same folder report
/// the same rows when no file operation fails: both report the planning's
/// errors and skipped entries (see [`plan_renames`]); the execution stages
/// every planned rename, refuses none in either phase, applies all of them,
/// and reports done exactly the files, with the same targets and in the same
/// order, that the preview lists.
pub proof fn law_execution_reports_what_preview_shows(
    loc: Locale,
    existing: Seq<Seq<char>>,
    mapping: Seq<(Seq<char>, Seq<char>)>,
    present: Seq<bool>,
)
    requires
        present.len() == mapping.len(),
    ensures
        ({
            let moves = plan_spec(loc, existing, mapping, present).moves;
            let n = moves.len();
            let (stage_errors, staged) = stage_upto(loc, moves, all_succeeded(n), n as int);
            let (done, finish_errors, applied) = finish_upto(
                loc,
                moves,
                staged,
                all_succeeded(n),
                staged.len() as int,
            );
            let preview = moves.map_values(|m: (Seq<char>, Seq<char>)| preview_entry(loc, m));
            &&& stage_errors.len() == 0
            &&& finish_errors.len() == 0
            &&& applied == moves
            &&& done.len() == preview.len()
            &&& forall|k: int|
                0 <= k < done.len() ==> (#[trigger] done[k]).file == preview[k].file && done[k].output
                    == preview[k].output
        }),
{
    let moves = plan_spec(loc, existing, mapping, present).moves;
    let n = moves.len();
    lemma_stage_all_succeed(loc, moves, n as int);
    lemma_finish_all_succeed(loc, moves, n as int);
    assert(moves.take(n as int) =~= moves);
}

/// The mapping that undoes renames: each `(old, target)` becomes
/// `(target, old)`, in the same order (what `invert` makes of a log).
pub open spec fn undo_mapping(moves: Seq<(Seq<char>, Seq<char>)>) -> Seq<(Seq<char>, Seq<char>)> {
    moves.map_values(|m: (Seq<char>, Seq<char>)| (m.1, m.0))
}

/// The files of a folder after renames: those not renamed away, then the
/// targets.
pub open spec fn folder_after(existing: Seq<Seq<char>>, moves: Seq<(Seq<char>, Seq<char>)>) -> Seq<
    Seq<char>,
> {
    existing.filter(|e: Seq<char>| !moves.map_values(|m: (Seq<char>, Seq<char>)| m.0).contains(e))
        + moves.map_values(|m: (Seq<char>, Seq<char>)| m.1)
}

proof fn lemma_no_forbidden(s: Seq<char>, from: int, i: int)
    requires
        0 <= from <= i < s.len(),
        first_forbidden_from(s, from) is None,
    ensures
        !is_forbidden(s[i]),
    decreases i - from,
{
    if from < i {
        lemma_no_forbidden(s, from + 1, i);
    }
}

proof fn lemma_find_from_found(s: Seq<char>, c: char, from: int)
    requires
        find_from(s, c, from) is Some,
    ensures
        ({
            let k = find_from(s, c, from).unwrap();
            0 <= from <= k < s.len() && s[k] == c
        }),
    decreases s.len() - from,
{
    if 0 <= from < s.len() && s[from] != c {
        lemma_find_from_found(s, c, from + 1);
    }
}

/// A name that passes the name check holds no path separator.
proof fn lemma_valid_name_has_no_separator(loc: Locale, name: Seq<char>)
    requires
        name_verdict(loc, name) is Ok,
    ensures
        !has_separator(name),
{
    assert(first_forbidden_from(name, 0) is None);
    if find_char(name, '\\') is Some {
        lemma_find_from_found(name, '\\', 0);
        lemma_no_forbidden(name, 0, find_char(name, '\\').unwrap());
    }
    if find_char(name, '/') is Some {
        lemma_find_from_found(name, '/', 0);
        lemma_no_forbidden(name, 0, find_char(name, '/').unwrap());
    }
}

proof fn lemma_owner_some(moves: Seq<(Seq<char>, Seq<char>)>, lower: Seq<char>, from: int)
    requires
        owner_from(moves, lower, from) is Some,
    ensures
        ({
            let j = owner_from(moves, lower, from).unwrap();
            0 <= from <= j < moves.len() && lowercase(moves[j].1) == lower
        }),
    decreases moves.len() - from,
{
    if 0 <= from < moves.len() && lowercase(moves[from].1) != lower {
        lemma_owner_some(moves, lower, from + 1);
    }
}

/// On the folder that renames left, a file named like an old name (without
/// regard to case) is one of the targets, unless it is the rename's own
/// target under another case.
proof fn lemma_undo_target_free(existing: Seq<Seq<char>>, moves: Seq<(Seq<char>, Seq<char>)>, k: int)
    requires
        0 <= k < moves.len(),
        forall|i: int, k: int|
            0 <= i < existing.len() && 0 <= k < moves.len() && lowercase(#[trigger] existing[i])
                == lowercase(#[trigger] moves[k].0) ==> existing[i] == moves[k].0,
    ensures
        ({
            let lt = lowercase(moves[k].0);
            let el = folder_after(existing, moves).map_values(|e: Seq<char>| lowercase(e));
            el.contains(lt) && lt != lowercase(moves[k].1) ==> sources_lower(
                undo_mapping(moves),
            ).contains(lt)
        }),
{
    let after = folder_after(existing, moves);
    let um = undo_mapping(moves);
    let sources = moves.map_values(|m: (Seq<char>, Seq<char>)| m.0);
    let targets = moves.map_values(|m: (Seq<char>, Seq<char>)| m.1);
    let kept = existing.filter(|e: Seq<char>| !sources.contains(e));
    let el = after.map_values(|e: Seq<char>| lowercase(e));
    let sl = sources_lower(um);
    let lt = lowercase(moves[k].0);
    if el.contains(lt) && lt != lowercase(moves[k].1) {
        let i = choose|i: int| 0 <= i < el.len() && el[i] == lt;
        assert(lowercase(after[i]) == lt);
        if i < kept.len() {
            existing.lemma_filter_contains_rev(|e: Seq<char>| !sources.contains(e), after[i]);
            assert(kept.contains(after[i])) by {
                assert(after[i] == kept[i]);
            }
            existing.filter_lemma(|e: Seq<char>| !sources.contains(e));
            let ie = choose|ie: int| 0 <= ie < existing.len() && existing[ie] == after[i];
            assert(existing[ie] == moves[k].0);
            assert(sources[k] == moves[k].0);
            assert(false);
        } else {
            let j = i - kept.len();
            assert(after[i] == targets[j]);
            assert(sl[j] == lowercase(um[j].0));
            assert(sl.contains(lt));
        }
    }
}

/// Planning the undo of the first `n` planned renames, on the folder they
/// left, accepts each of them in turn.
proof fn lemma_undo_upto(
    loc: Locale,
    existing: Seq<Seq<char>>,
    moves: Seq<(Seq<char>, Seq<char>)>,
    n: int,
)
    requires
        0 <= n <= moves.len(),
        forall|k: int|
            0 <= k < moves.len() ==> {
                &&& name_verdict(loc, (#[trigger] moves[k]).1) is Ok
                &&& moves[k].1 != moves[k].0
                &&& name_verdict(loc, moves[k].0) is Ok
                &&& (ext_spec(moves[k].0) is Some || ext_spec(moves[k].1) is None)
            },
        forall|j: int, k: int|
            0 <= j < k < moves.len() ==> lowercase(#[trigger] moves[j].0) != lowercase(
                #[trigger] moves[k].0,
            ),
        forall|i: int, k: int|
            0 <= i < existing.len() && 0 <= k < moves.len() && lowercase(#[trigger] existing[i])
                == lowercase(#[trigger] moves[k].0) ==> existing[i] == moves[k].0,
    ensures
        plan_upto(
            loc,
            folder_after(existing, moves),
            undo_mapping(moves),
            Seq::new(moves.len(), |i: int| true),
            n,
        ) == (PlanState { errors: seq![], skipped: seq![], moves: undo_mapping(moves).take(n) }),
    decreases n,
{
    if n > 0 {
        lemma_undo_upto(loc, existing, moves, n - 1);
        let after = folder_after(existing, moves);
        let um = undo_mapping(moves);
        let trues = Seq::new(moves.len(), |i: int| true);
        let sources = moves.map_values(|m: (Seq<char>, Seq<char>)| m.0);
        let targets = moves.map_values(|m: (Seq<char>, Seq<char>)| m.1);
        let kept = existing.filter(|e: Seq<char>| !sources.contains(e));
        let el = after.map_values(|e: Seq<char>| lowercase(e));
        let sl = um.map_values(|p: (Seq<char>, Seq<char>)| lowercase(p.0));
        let st = PlanState { errors: seq![], skipped: seq![], moves: um.take(n - 1) };
        let k = n - 1;
        let (t, old) = (moves[k].1, moves[k].0);
        assert(um[k] == (t, old));
        lemma_valid_name_has_no_separator(loc, t);
        assert(target_name(t, old) == old);
        let lt = lowercase(old);
        if owner_from(st.moves, lt, 0) is Some {
            lemma_owner_some(st.moves, lt, 0);
            let j = owner_from(st.moves, lt, 0).unwrap();
            assert(st.moves[j] == um[j]);
            assert(lowercase(moves[j].0) != lowercase(moves[k].0));
        }
        lemma_undo_target_free(existing, moves, k);
        assert(sl =~= sources_lower(um));
        assert(um.take(n - 1).push(um[k]) =~= um.take(n));
    }
}

/// Undoing a batch restores it: on the folder that the planned renames
/// left, planning the reversed renames (targets back to their old names,
/// every target present) accepts every one of them, in order, and refuses or
/// skips none. This holds when the old names themselves pass the name check,
/// an old name without an extension did not gain one, no two old names are
/// equal without regard to case, and no other file of the folder had an old
/// name under another case.
pub proof fn law_undo_restores_names(
    loc: Locale,
    existing: Seq<Seq<char>>,
    mapping: Seq<(Seq<char>, Seq<char>)>,
    present: Seq<bool>,
)
    requires
        present.len() == mapping.len(),
        ({
            let moves = plan_spec(loc, existing, mapping, present).moves;
            &&& forall|k: int|
                0 <= k < moves.len() ==> {
                    &&& name_verdict(loc, (#[trigger] moves[k]).0) is Ok
                    &&& (ext_spec(moves[k].0) is Some || ext_spec(moves[k].1) is None)
                }
            &&& forall|j: int, k: int|
                0 <= j < k < moves.len() ==> lowercase(#[trigger] moves[j].0) != lowercase(
                    #[trigger] moves[k].0,
                )
            &&& forall|i: int, k: int|
                0 <= i < existing.len() && 0 <= k < moves.len() && lowercase(
                    #[trigger] existing[i],
                ) == lowercase(#[trigger] moves[k].0) ==> existing[i] == moves[k].0
        }),
    ensures
        ({
            let moves = plan_spec(loc, existing, mapping, present).moves;
            let undo = plan_spec(
                loc,
                folder_after(existing, moves),
                undo_mapping(moves),
                Seq::new(moves.len(), |i: int| true),
            );
            &&& undo.moves == undo_mapping(moves)
            &&& undo.errors.len() == 0
            &&& undo.skipped.len() == 0
        }),
{
    let moves = plan_spec(loc, existing, mapping, present).moves;
    law_planned_renames_are_safe(loc, existing, mapping, present);
    lemma_undo_upto(loc, existing, moves, moves.len() as int);
    let um = undo_mapping(moves);
    assert(um.take(moves.len() as int) =~= um);
    let after = folder_after(existing, moves);
    let el = after.map_values(|e: Seq<char>| lowercase(e));
    assert forall|k: int| 0 <= k < um.len() implies !blocked(el, um, #[trigger] um[k]) by {
        lemma_undo_target_free(existing, moves, k);
        assert(um[k] == (moves[k].1, moves[k].0));
    }
    lemma_none_blocked(el, um, 0);
}

// ================================================================== carrying out renames

/// A folder as file names and their contents.
pub type FolderModel = Map<Seq<char>, Seq<u8>>;

/// Renaming `from` to `to` in a folder: when `from` is a file, `to` takes its
/// contents (replacing a file of that name) and `from` is gone; otherwise
/// nothing changes.
pub open spec fn rename_in(f: FolderModel, from: Seq<char>, to: Seq<char>) -> FolderModel {
    if f.dom().contains(from) {
        f.remove(from).insert(to, f[from])
    } else {
        f
    }
}

/// Renames carried out one after another.
pub open spec fn rename_all(f: FolderModel, ops: Seq<(Seq<char>, Seq<char>)>) -> FolderModel
    decreases ops.len(),
{
    if ops.len() == 0 {
        f
    } else {
        rename_in(rename_all(f, ops.drop_last()), ops.last().0, ops.last().1)
    }
}

/// The file operations of a two-phase batch: every source to its temporary
/// name, then every temporary name to its target.
pub open spec fn two_phase_ops(moves: Seq<(Seq<char>, Seq<char>)>, temps: Seq<Seq<char>>) -> Seq<
    (Seq<char>, Seq<char>),
> {
    Seq::new(moves.len(), |i: int| (moves[i].0, temps[i])) + Seq::new(
        moves.len(),
        |i: int| (temps[i], moves[i].1),
    )
}

/// The temporary names of a batch started at `stamp` with `n` renames.
pub open spec fn temp_names(stamp: nat, n: nat) -> Seq<Seq<char>> {
    Seq::new(n, |i: int| temp_name_spec(stamp, i as nat))
}

/// The file operations of the batch of planned renames `moves` started at
/// `stamp`, in the order they are carried out when none fails.
pub fn two_phase_steps(stamp: u128, moves: &Vec<AppliedRename>) -> (res: Vec<(String, String)>)
    ensures
        pairs_view(res@) == two_phase_ops(
            renames_view(moves@),
            temp_names(stamp as nat, moves@.len()),
        ),
{
    let n = moves.len();
    let ghost mv = renames_view(moves@);
    let ghost temps = temp_names(stamp as nat, n as nat);
    let ghost ops = two_phase_ops(mv, temps);
    let mut out: Vec<(String, String)> = Vec::new();
    for i in 0..n
        invariant
            n == moves@.len(),
            mv == renames_view(moves@),
            temps == temp_names(stamp as nat, n as nat),
            ops == two_phase_ops(mv, temps),
            pairs_view(out@) == ops.take(i as int),
    {
        let t = temp_name(stamp, i);
        let src = moves[i].from.clone();
        assert(src@ == mv[i as int].0);
        assert(ops[i as int] == (mv[i as int].0, temps[i as int]));
        let ghost before = out@;
        out.push((src, t));
        assert(out@ == before.push((src, t)));
        assert(t@ == temps[i as int]);
        assert(pairs_view(out@) =~= pairs_view(before).push((src@, t@)));
        assert(pairs_view(out@) =~= ops.take(i + 1));
    }
    for i in 0..n
        invariant
            n == moves@.len(),
            mv == renames_view(moves@),
            temps == temp_names(stamp as nat, n as nat),
            ops == two_phase_ops(mv, temps),
            pairs_view(out@) == ops.take(n + i),
    {
        let t = temp_name(stamp, i);
        let dst = moves[i].to.clone();
        assert(dst@ == mv[i as int].1);
        assert(ops[n + i] == (temps[i as int], mv[i as int].1));
        let ghost before = out@;
        out.push((t, dst));
        assert(out@ == before.push((t, dst)));
        assert(t@ == temps[i as int]);
        assert(pairs_view(out@) =~= pairs_view(before).push((t@, dst@)));
        assert(pairs_view(out@) =~= ops.take(n + i + 1));
    }
    assert(ops.take(2 * n) =~= ops);
    out
}

proof fn lemma_rename_all_step(f: FolderModel, ops: Seq<(Seq<char>, Seq<char>)>, n: int)
    requires
        0 <= n < ops.len(),
    ensures
        rename_all(f, ops.take(n + 1)) == rename_in(rename_all(f, ops.take(n)), ops[n].0, ops[n].1),
{
    assert(ops.take(n + 1).drop_last() =~= ops.take(n));
}

proof fn lemma_rename_all_append(f: FolderModel, a: Seq<(Seq<char>, Seq<char>)>, b: Seq<(Seq<char>, Seq<char>)>)
    ensures
        rename_all(f, a + b) == rename_all(rename_all(f, a), b),
    decreases b.len(),
{
    if b.len() == 0 {
        assert(a + b =~= a);
    } else {
        lemma_rename_all_append(f, a, b.drop_last());
        assert((a + b).drop_last() =~= a + b.drop_last());
    }
}

/// Rename `k` is the first of `moves` with its source: a later rename of
/// the same source finds the file already moved and does nothing.
pub open spec fn first_of_source(moves: Seq<(Seq<char>, Seq<char>)>, k: int) -> bool {
    forall|j: int| 0 <= j < k ==> (#[trigger] moves[j]).0 != moves[k].0
}

/// Some rename up to `i` is the first with `i`'s source.
proof fn lemma_first_occurrence(moves: Seq<(Seq<char>, Seq<char>)>, i: int)
    requires
        0 <= i < moves.len(),
    ensures
        exists|k: int| 0 <= k <= i && first_of_source(moves, k) && #[trigger] moves[k].0 == moves[i].0,
    decreases i,
{
    if !first_of_source(moves, i) {
        let j = choose|j: int| 0 <= j < i && (#[trigger] moves[j]).0 == moves[i].0;
        lemma_first_occurrence(moves, j);
        let k = choose|k: int| 0 <= k <= j && first_of_source(moves, k) && #[trigger] moves[k].0 == moves[j].0;
        assert(moves[k].0 == moves[i].0);
    } else {
        assert(moves[i].0 == moves[i].0);
    }
}

/// The first phase, over the first `n` renames.
#[verifier::spinoff_prover]
#[verifier::rlimit(60)]
proof fn lemma_stage_phase(f: FolderModel, moves: Seq<(Seq<char>, Seq<char>)>, temps: Seq<Seq<char>>, n: int)
    requires
        0 <= n <= moves.len(),
        temps.len() == moves.len(),
        forall|i: int| 0 <= i < moves.len() ==> f.dom().contains(#[trigger] moves[i].0),
        forall|i: int, j: int| 0 <= i < j < temps.len() ==> #[trigger] temps[i] != #[trigger] temps[j],
        forall|i: int| 0 <= i < temps.len() ==> !f.dom().contains(#[trigger] temps[i]),
    ensures
        ({
            let h = rename_all(f, Seq::new(moves.len(), |i: int| (moves[i].0, temps[i])).take(n));
            &&& forall|i: int|
                0 <= i < n && first_of_source(moves, i) ==> h.dom().contains(#[trigger] temps[i])
                    && h[temps[i]] == f[moves[i].0]
            &&& forall|i: int|
                0 <= i < n && !first_of_source(moves, i) ==> !h.dom().contains(#[trigger] temps[i])
            &&& forall|i: int| n <= i < moves.len() ==> !h.dom().contains(#[trigger] temps[i])
            &&& forall|i: int| 0 <= i < n ==> !h.dom().contains(#[trigger] moves[i].0)
            &&& forall|x: Seq<char>|
                (forall|i: int| 0 <= i < n ==> x != #[trigger] moves[i].0) && (forall|i: int|
                    0 <= i < temps.len() ==> x != #[trigger] temps[i]) ==> (#[trigger] h.dom().contains(x)
                    == f.dom().contains(x) && (f.dom().contains(x) ==> h[x] == f[x]))
        }),
    decreases n,
{
    let p1 = Seq::new(moves.len(), |i: int| (moves[i].0, temps[i]));
    if n > 0 {
        lemma_stage_phase(f, moves, temps, n - 1);
        lemma_rename_all_step(f, p1, n - 1);
        let h0 = rename_all(f, p1.take(n - 1));
        let k = n - 1;
        let h = rename_all(f, p1.take(n));
        assert(moves[k].0 != temps[k]);
        if first_of_source(moves, k) {
            assert(h0.dom().contains(moves[k].0) && h0[moves[k].0] == f[moves[k].0]) by {
                assert forall|i: int| 0 <= i < temps.len() implies moves[k].0 != #[trigger] temps[i] by {
                    assert(!f.dom().contains(temps[i]));
                }
            }
            assert(h == h0.remove(moves[k].0).insert(temps[k], h0[moves[k].0]));
        } else {
            let j = choose|j: int| 0 <= j < k && (#[trigger] moves[j]).0 == moves[k].0;
            assert(!h0.dom().contains(moves[j].0));
            assert(h == h0);
        }
        assert forall|i: int| 0 <= i < n && first_of_source(moves, i) implies h.dom().contains(
            #[trigger] temps[i],
        ) && h[temps[i]] == f[moves[i].0] by {
            if i < k {
                assert(temps[i] != temps[k]);
                assert(temps[i] != moves[k].0);
            }
        }
        assert forall|i: int| 0 <= i < n && !first_of_source(moves, i) implies !h.dom().contains(
            #[trigger] temps[i],
        ) by {
            if i < k {
                assert(temps[i] != temps[k]);
            }
        }
        assert forall|i: int| n <= i < moves.len() implies !h.dom().contains(#[trigger] temps[i]) by {
            assert(temps[i] != temps[k]);
        }
        assert forall|i: int| 0 <= i < n implies !h.dom().contains(#[trigger] moves[i].0) by {
            assert(moves[i].0 != temps[k]) by {
                assert(!f.dom().contains(temps[k]));
            }
        }
        assert forall|x: Seq<char>|
            (forall|i: int| 0 <= i < n ==> x != #[trigger] moves[i].0) && (forall|i: int|
                0 <= i < temps.len() ==> x != #[trigger] temps[i]) implies (#[trigger] h.dom().contains(x)
            == f.dom().contains(x) && (f.dom().contains(x) ==> h[x] == f[x])) by {
            assert(x != moves[k].0);
            assert(x != temps[k]);
            assert(forall|i: int| 0 <= i < n - 1 ==> x != #[trigger] moves[i].0);
        }
    } else {
        assert(p1.take(0) =~= Seq::<(Seq<char>, Seq<char>)>::empty());
    }
}

/// The second phase, over the first `m` renames, from the folder `h` that
/// the first phase left.
#[verifier::spinoff_prover]
#[verifier::rlimit(60)]
proof fn lemma_finish_phase(
    f: FolderModel,
    h: FolderModel,
    moves: Seq<(Seq<char>, Seq<char>)>,
    temps: Seq<Seq<char>>,
    m: int,
)
    requires
        0 <= m <= moves.len(),
        temps.len() == moves.len(),
        forall|i: int, j: int|
            0 <= i < j < moves.len() ==> (#[trigger] moves[i]).1 != (#[trigger] moves[j]).1,
        forall|i: int, j: int| 0 <= i < j < temps.len() ==> #[trigger] temps[i] != #[trigger] temps[j],
        forall|i: int, j: int|
            0 <= i < temps.len() && 0 <= j < moves.len() ==> #[trigger] temps[i] != (
            #[trigger] moves[j]).1,
        forall|i: int|
            0 <= i < moves.len() && first_of_source(moves, i) ==> h.dom().contains(#[trigger] temps[i])
                && h[temps[i]] == f[moves[i].0],
        forall|i: int|
            0 <= i < moves.len() && !first_of_source(moves, i) ==> !h.dom().contains(
                #[trigger] temps[i],
            ),
    ensures
        ({
            let g = rename_all(h, Seq::new(moves.len(), |i: int| (temps[i], moves[i].1)).take(m));
            &&& forall|i: int|
                0 <= i < m && first_of_source(moves, i) ==> g.dom().contains(#[trigger] moves[i].1)
                    && g[moves[i].1] == f[moves[i].0]
            &&& forall|i: int|
                m <= i < moves.len() && first_of_source(moves, i) ==> g.dom().contains(
                    #[trigger] temps[i],
                ) && g[temps[i]] == f[moves[i].0]
            &&& forall|i: int|
                m <= i < moves.len() && !first_of_source(moves, i) ==> !g.dom().contains(
                    #[trigger] temps[i],
                )
            &&& forall|i: int| 0 <= i < m ==> !g.dom().contains(#[trigger] temps[i])
            &&& forall|x: Seq<char>|
                (forall|i: int| 0 <= i < m && first_of_source(moves, i) ==> x != (
                #[trigger] moves[i]).1) && (forall|i: int|
                    0 <= i < temps.len() ==> x != #[trigger] temps[i]) ==> (#[trigger] g.dom().contains(x)
                    == h.dom().contains(x) && (h.dom().contains(x) ==> g[x] == h[x]))
        }),
    decreases m,
{
    let p2 = Seq::new(moves.len(), |i: int| (temps[i], moves[i].1));
    if m > 0 {
        lemma_finish_phase(f, h, moves, temps, m - 1);
        lemma_rename_all_step(h, p2, m - 1);
        let g0 = rename_all(h, p2.take(m - 1));
        let k = m - 1;
        let g = rename_all(h, p2.take(m));
        if first_of_source(moves, k) {
            assert(g0.dom().contains(temps[k]));
            assert(g == g0.remove(temps[k]).insert(moves[k].1, g0[temps[k]]));
        } else {
            assert(!g0.dom().contains(temps[k]));
            assert(g == g0);
        }
        assert forall|i: int| 0 <= i < m && first_of_source(moves, i) implies g.dom().contains(
            #[trigger] moves[i].1,
        ) && g[moves[i].1] == f[moves[i].0] by {
            if i < k {
                assert(moves[i].1 != moves[k].1);
                assert(temps[k] != moves[i].1);
            }
        }
        assert forall|i: int| m <= i < moves.len() && first_of_source(moves, i) implies g.dom().contains(
            #[trigger] temps[i],
        ) && g[temps[i]] == f[moves[i].0] by {
            assert(temps[i] != temps[k]);
            assert(temps[i] != moves[k].1);
        }
        assert forall|i: int| m <= i < moves.len() && !first_of_source(moves, i) implies !g.dom().contains(
            #[trigger] temps[i],
        ) by {
            assert(temps[i] != temps[k]);
            assert(temps[i] != moves[k].1);
        }
        assert forall|i: int| 0 <= i < m implies !g.dom().contains(#[trigger] temps[i]) by {
            if i < k {
                assert(temps[i] != temps[k]);
            }
            assert(temps[i] != moves[k].1);
        }
        assert forall|x: Seq<char>|
            (forall|i: int| 0 <= i < m && first_of_source(moves, i) ==> x != (#[trigger] moves[i]).1)
                && (forall|i: int| 0 <= i < temps.len() ==> x != #[trigger] temps[i]) implies (
        #[trigger] g.dom().contains(x) == h.dom().contains(x) && (h.dom().contains(x) ==> g[x]
            == h[x])) by {
            assert(x != temps[k]);
            if first_of_source(moves, k) {
                assert(x != moves[k].1);
            }
            assert(forall|i: int|
                0 <= i < m - 1 && first_of_source(moves, i) ==> x != (#[trigger] moves[i]).1);
        }
    } else {
        assert(p2.take(0) =~= Seq::<(Seq<char>, Seq<char>)>::empty());
    }
}

/// After the two-phase operations of `moves` with temporary names `temps`
/// on folder `f`: the target of every rename that is the first with its
/// source holds that source's former contents (a later rename of the same
/// source finds nothing to move); every file of `f` that is not a source
/// keeps its name and contents; and the contents of every file of `f` are
/// still held by some file, so nothing is lost.
pub open spec fn moves_contents(
    f: FolderModel,
    moves: Seq<(Seq<char>, Seq<char>)>,
    temps: Seq<Seq<char>>,
) -> bool {
    let g = rename_all(f, two_phase_ops(moves, temps));
    &&& forall|k: int|
        0 <= k < moves.len() && first_of_source(moves, k) ==> g.dom().contains(
            #[trigger] moves[k].1,
        ) && g[moves[k].1] == f[moves[k].0]
    &&& forall|x: Seq<char>|
        f.dom().contains(x) && (forall|j: int| 0 <= j < moves.len() ==> x != (
        #[trigger] moves[j]).0) ==> #[trigger] g.dom().contains(x) && g[x] == f[x]
    &&& forall|x: Seq<char>|
        #[trigger] f.dom().contains(x) ==> exists|y: Seq<char>| g.dom().contains(y) && #[trigger] g[y]
            == f[x]
}

/// A file that no rename moves keeps its name and contents.
proof fn lemma_non_source_kept(
    f: FolderModel,
    moves: Seq<(Seq<char>, Seq<char>)>,
    temps: Seq<Seq<char>>,
    x: Seq<char>,
)
    requires
        temps.len() == moves.len(),
        forall|i: int| 0 <= i < moves.len() ==> f.dom().contains(#[trigger] moves[i].0),
        forall|i: int, j: int|
            0 <= i < j < moves.len() ==> (#[trigger] moves[i]).1 != (#[trigger] moves[j]).1,
        forall|i: int, j: int| 0 <= i < j < temps.len() ==> #[trigger] temps[i] != #[trigger] temps[j],
        forall|i: int| 0 <= i < temps.len() ==> !f.dom().contains(#[trigger] temps[i]),
        forall|i: int, j: int|
            0 <= i < temps.len() && 0 <= j < moves.len() ==> #[trigger] temps[i] != (
            #[trigger] moves[j]).1,
        forall|k: int|
            0 <= k < moves.len() && f.dom().contains(#[trigger] moves[k].1) ==> exists|j: int|
                0 <= j < moves.len() && (#[trigger] moves[j]).0 == moves[k].1,
        f.dom().contains(x),
        forall|j: int| 0 <= j < moves.len() ==> x != (#[trigger] moves[j]).0,
    ensures
        rename_all(f, two_phase_ops(moves, temps)).dom().contains(x),
        rename_all(f, two_phase_ops(moves, temps))[x] == f[x],
{
    let n = moves.len() as int;
    let p1 = Seq::new(moves.len(), |i: int| (moves[i].0, temps[i]));
    let p2 = Seq::new(moves.len(), |i: int| (temps[i], moves[i].1));
    lemma_rename_all_append(f, p1, p2);
    lemma_stage_phase(f, moves, temps, n);
    assert(p1.take(n) =~= p1);
    let h = rename_all(f, p1);
    lemma_finish_phase(f, h, moves, temps, n);
    assert(p2.take(n) =~= p2);
    assert(two_phase_ops(moves, temps) == p1 + p2);
    assert forall|i: int| 0 <= i < temps.len() implies x != #[trigger] temps[i] by {
        assert(!f.dom().contains(temps[i]));
    }
    assert forall|i: int| 0 <= i < n && first_of_source(moves, i) implies x != (
    #[trigger] moves[i]).1 by {
        if x == moves[i].1 {
            let j = choose|j: int| 0 <= j < moves.len() && (#[trigger] moves[j]).0 == moves[i].1;
            assert(x == moves[j].0);
        }
    }
    assert(forall|i: int| 0 <= i < n ==> x != #[trigger] moves[i].0);
    assert(h.dom().contains(x) == f.dom().contains(x));
}

/// Carrying out a batch in two phases, when no file operation fails, loses
/// no file and overwrites none: see [`moves_contents`]. The sources must be
/// files of the folder; the targets distinct; the temporary names distinct,
/// new to the folder and not targets; and a target that is already a file
/// must be one of the sources.
pub proof fn law_two_phase_renames_move_contents(
    f: FolderModel,
    moves: Seq<(Seq<char>, Seq<char>)>,
    temps: Seq<Seq<char>>,
)
    requires
        temps.len() == moves.len(),
        forall|i: int| 0 <= i < moves.len() ==> f.dom().contains(#[trigger] moves[i].0),
        forall|i: int, j: int|
            0 <= i < j < moves.len() ==> (#[trigger] moves[i]).1 != (#[trigger] moves[j]).1,
        forall|i: int, j: int| 0 <= i < j < temps.len() ==> #[trigger] temps[i] != #[trigger] temps[j],
        forall|i: int| 0 <= i < temps.len() ==> !f.dom().contains(#[trigger] temps[i]),
        forall|i: int, j: int|
            0 <= i < temps.len() && 0 <= j < moves.len() ==> #[trigger] temps[i] != (
            #[trigger] moves[j]).1,
        forall|k: int|
            0 <= k < moves.len() && f.dom().contains(#[trigger] moves[k].1) ==> exists|j: int|
                0 <= j < moves.len() && (#[trigger] moves[j]).0 == moves[k].1,
    ensures
        moves_contents(f, moves, temps),
{
    let n = moves.len() as int;
    let p1 = Seq::new(moves.len(), |i: int| (moves[i].0, temps[i]));
    let p2 = Seq::new(moves.len(), |i: int| (temps[i], moves[i].1));
    lemma_rename_all_append(f, p1, p2);
    lemma_stage_phase(f, moves, temps, n);
    assert(p1.take(n) =~= p1);
    let h = rename_all(f, p1);
    lemma_finish_phase(f, h, moves, temps, n);
    assert(p2.take(n) =~= p2);
    let g = rename_all(h, p2);
    assert(two_phase_ops(moves, temps) == p1 + p2);
    assert forall|x: Seq<char>|
        f.dom().contains(x) && (forall|j: int| 0 <= j < moves.len() ==> x != (#[trigger] moves[j]).0)
        implies #[trigger] g.dom().contains(x) && g[x] == f[x] by {
        lemma_non_source_kept(f, moves, temps, x);
    }
    assert forall|x: Seq<char>| #[trigger] f.dom().contains(x) implies exists|y: Seq<char>|
        g.dom().contains(y) && #[trigger] g[y] == f[x] by {
        if exists|j: int| 0 <= j < moves.len() && (#[trigger] moves[j]).0 == x {
            let j = choose|j: int| 0 <= j < moves.len() && (#[trigger] moves[j]).0 == x;
            lemma_first_occurrence(moves, j);
            let k = choose|k: int| 0 <= k <= j && first_of_source(moves, k) && #[trigger] moves[k].0 == moves[j].0;
            assert(g.dom().contains(moves[k].1) && g[moves[k].1] == f[x]);
        } else {
            assert forall|j: int| 0 <= j < moves.len() implies x != (#[trigger] moves[j]).0 by {
                if x == moves[j].0 {
                    assert(0 <= j < moves.len() && (#[trigger] moves[j]).0 == x);
                }
            }
            lemma_non_source_kept(f, moves, temps, x);
        }
    }
}

/// A planned batch, carried out in two phases with no file operation
/// failing, loses no file and overwrites none (see [`moves_contents`]),
/// even when an old name occurs more than once in the mapping. The
/// folder `f` holds the files `existing`, no two equal without regard to
/// case; `present` tells which old names are files; and the temporary names
/// are distinct, new to the folder and not targets.
pub proof fn law_planned_batch_keeps_every_file(
    loc: Locale,
    existing: Seq<Seq<char>>,
    f: FolderModel,
    mapping: Seq<(Seq<char>, Seq<char>)>,
    present: Seq<bool>,
    temps: Seq<Seq<char>>,
)
    requires
        present.len() == mapping.len(),
        f.dom() == existing.to_set(),
        forall|i: int, j: int|
            0 <= i < existing.len() && 0 <= j < existing.len() && lowercase(#[trigger] existing[i])
                == lowercase(#[trigger] existing[j]) ==> i == j,
        forall|i: int| 0 <= i < mapping.len() ==> present[i] == f.dom().contains(#[trigger] mapping[i].0),
        temps.len() == plan_spec(loc, existing, mapping, present).moves.len(),
        forall|i: int, j: int| 0 <= i < j < temps.len() ==> #[trigger] temps[i] != #[trigger] temps[j],
        forall|i: int| 0 <= i < temps.len() ==> !f.dom().contains(#[trigger] temps[i]),
        forall|i: int, j: int|
            0 <= i < temps.len() && 0 <= j < temps.len() ==> #[trigger] temps[i] != (#[trigger] plan_spec(
                loc,
                existing,
                mapping,
                present,
            ).moves[j]).1,
    ensures
        moves_contents(f, plan_spec(loc, existing, mapping, present).moves, temps),
{
    let moves = plan_spec(loc, existing, mapping, present).moves;
    let el = lowercase_names(existing);
    let n = mapping.len() as int;
    let st = plan_upto(loc, existing, mapping, present, n);
    law_planned_renames_are_safe(loc, existing, mapping, present);
    lemma_settle(loc, el, st.moves, st.errors);
    assert(moves == settle(loc, el, st.moves, st.errors).0);
    assert forall|i: int| 0 <= i < moves.len() implies f.dom().contains(#[trigger] moves[i].0) by {
        assert(entry_of_move(mapping, present, moves[i]));
        let r = choose|r: int|
            0 <= r < mapping.len() && mapping[r].0 == moves[i].0 && present[r] && target_name(
                moves[i].0,
                mapping[r].1,
            ) == moves[i].1;
        assert(present[r] == f.dom().contains(mapping[r].0));
    }
    assert forall|i: int, j: int| 0 <= i < j < moves.len() implies (#[trigger] moves[i]).1 != (
    #[trigger] moves[j]).1 by {
        assert(lowercase(moves[i].1) != lowercase(moves[j].1));
    }
    assert forall|k: int| 0 <= k < moves.len() && f.dom().contains(#[trigger] moves[k].1) implies exists|
        j: int,
    | 0 <= j < moves.len() && (#[trigger] moves[j]).0 == moves[k].1 by {
        let t = moves[k].1;
        assert(existing.to_set().contains(t));
        let i = choose|i: int| 0 <= i < existing.len() && existing[i] == t;
        assert(el[i] == lowercase(t));
        assert(el.contains(lowercase(t)));
        assert(!blocked(el, moves, moves[k]));
        assert(move_checks_pass(loc, moves[k]));
        let s0 = moves[k].0;
        assert(f.dom().contains(s0));
        assert(existing.to_set().contains(s0));
        let i0 = choose|i0: int| 0 <= i0 < existing.len() && existing[i0] == s0;
        if lowercase(t) == lowercase(s0) {
            assert(lowercase(existing[i]) == lowercase(existing[i0]));
            assert(i == i0);
            assert(false);
        } else {
            let sl = sources_lower(moves);
            assert(sl.contains(lowercase(t)));
            let j = choose|j: int| 0 <= j < sl.len() && sl[j] == lowercase(t);
            assert(sl[j] == lowercase(moves[j].0));
            assert(f.dom().contains(moves[j].0));
            assert(existing.to_set().contains(moves[j].0));
            let i2 = choose|i2: int| 0 <= i2 < existing.len() && existing[i2] == moves[j].0;
            assert(lowercase(existing[i]) == lowercase(existing[i2]));
            assert(i == i2);
            assert(moves[j].0 == t);
        }
    }
    law_two_phase_renames_move_contents(f, moves, temps);
}

// ================================================================== writing mappings

/// The text of lines, each followed by `'\n'`.
pub open spec fn lines_text(ls: Seq<Seq<char>>) -> Seq<char>
    decreases ls.len(),
{
    if ls.len() == 0 {
        seq![]
    } else {
        lines_text(ls.drop_last()) + ls.last() + "\n"@
    }
}

/// The line written for a pair: `old,new`.
pub open spec fn pair_line(p: (Seq<char>, Seq<char>)) -> Seq<char> {
    p.0 + ","@ + p.1
}

/// The comment line written for a parse error.
pub open spec fn note_line(e: Seq<char>) -> Seq<char> {
    "# 解析失败: "@ + e
}

/// The mapping text written for pairs and parse errors: one `old,new` line
/// per pair, then one comment line per error.
pub open spec fn mapping_text_spec(
    pairs: Seq<(Seq<char>, Seq<char>)>,
    notes: Seq<Seq<char>>,
) -> Seq<char> {
    lines_text(pairs.map_values(|p: (Seq<char>, Seq<char>)| pair_line(p)) + notes.map_values(
        |e: Seq<char>| note_line(e),
    ))
}

/// Writes pairs and parse errors back as a mapping text that can be edited
/// and read again: `old,new` lines, then `# ` comment lines for the errors.
#[verifier::spinoff_prover]
pub fn mapping_text(pairs: &Vec<(String, String)>, notes: &Vec<String>) -> (res: String)
    ensures
        res@ == mapping_text_spec(pairs_view(pairs@), strings_view(notes@)),
{
    let ghost pl = pairs_view(pairs@).map_values(|p: (Seq<char>, Seq<char>)| pair_line(p));
    let ghost nl = strings_view(notes@).map_values(|e: Seq<char>| note_line(e));
    let mut out = String::new();
    for i in 0..pairs.len()
        invariant
            pl == pairs_view(pairs@).map_values(|p: (Seq<char>, Seq<char>)| pair_line(p)),
            out@ == lines_text(pl.take(i as int)),
    {
        push_str(&mut out, pairs[i].0.as_str());
        push_str(&mut out, ",");
        push_str(&mut out, pairs[i].1.as_str());
        push_str(&mut out, "\n");
        assert(pl.take(i + 1).drop_last() == pl.take(i as int));
    }
    assert(pl.take(pairs@.len() as int) == pl);
    for j in 0..notes.len()
        invariant
            pl == pairs_view(pairs@).map_values(|p: (Seq<char>, Seq<char>)| pair_line(p)),
            nl == strings_view(notes@).map_values(|e: Seq<char>| note_line(e)),
            out@ == lines_text(pl + nl.take(j as int)),
    {
        push_str(&mut out, "# 解析失败: ");
        push_str(&mut out, notes[j].as_str());
        push_str(&mut out, "\n");
        assert((pl + nl.take(j + 1)).drop_last() == pl + nl.take(j as int));
        assert((pl + nl.take(j + 1)).last() == note_line(notes@[j as int]@));
    }
    assert(nl.take(notes@.len() as int) == nl);
    out
}

/// A name that survives being written into a mapping line and read back.
pub open spec fn clean_name(s: Seq<char>) -> bool {
    &&& s.len() > 0
    &&& !is_ws(s[0])
    &&& !is_ws(s.last())
    &&& forall|i: int| 0 <= i < s.len() ==> #[trigger] s[i] != '\n' && s[i] != '\t' && s[i] != '，'
}

/// A pair that survives being written as a mapping line and read back: clean
/// names, no comma in the old name, which does not start a comment or with a
/// byte-order mark.
pub open spec fn clean_pair(p: (Seq<char>, Seq<char>)) -> bool {
    &&& clean_name(p.0)
    &&& clean_name(p.1)
    &&& p.0[0] != '#'
    &&& p.0[0] != '\u{feff}'
    &&& forall|i: int| 0 <= i < p.0.len() ==> #[trigger] p.0[i] != ','
}

proof fn lemma_split_lines_append(s: Seq<char>, t: Seq<char>)
    requires
        forall|i: int| 0 <= i < t.len() ==> #[trigger] t[i] != '\n',
    ensures
        split_lines(s + t) == split_lines(s).update(
            split_lines(s).len() - 1,
            split_lines(s).last() + t,
        ),
    decreases t.len(),
{
    lemma_split_lines_nonempty(s);
    if t.len() == 0 {
        assert(s + t =~= s);
        assert(split_lines(s).last() + t =~= split_lines(s).last());
        assert(split_lines(s).update(split_lines(s).len() - 1, split_lines(s).last())
            =~= split_lines(s));
    } else {
        let t0 = t.drop_last();
        assert forall|i: int| 0 <= i < t0.len() implies #[trigger] t0[i] != '\n' by {
            assert(t0[i] == t[i]);
        }
        lemma_split_lines_append(s, t0);
        let big = split_lines(s);
        let prev = split_lines(s + t0);
        assert((s + t).drop_last() =~= s + t0);
        assert((s + t).last() == t[t.len() - 1]);
        assert(t[t.len() - 1] != '\n');
        assert(split_lines(s + t) == prev.update(prev.len() - 1, prev.last().push((s + t).last())));
        assert(prev.len() == big.len());
        assert(prev.last() == big.last() + t0);
        assert((big.last() + t0).push(t.last()) =~= big.last() + t);
        assert(prev.update(prev.len() - 1, prev.last().push((s + t).last())) =~= big.update(
            big.len() - 1,
            big.last() + t,
        ));
    }
}

proof fn lemma_split_lines_text(ls: Seq<Seq<char>>)
    requires
        forall|k: int, i: int| 0 <= k < ls.len() && 0 <= i < ls[k].len() ==> #[trigger] ls[k][i] != '\n',
    ensures
        split_lines(lines_text(ls)) == ls.push(seq![]),
    decreases ls.len(),
{
    if ls.len() == 0 {
        assert(split_lines(seq![]) == seq![Seq::<char>::empty()]);
        assert(ls.push(seq![]) =~= seq![Seq::<char>::empty()]);
    } else {
        let front = ls.drop_last();
        assert forall|k: int, i: int| 0 <= k < front.len() && 0 <= i < front[k].len() implies #[trigger] front[k][i] != '\n' by {
            assert(front[k] == ls[k]);
        }
        lemma_split_lines_text(front);
        let l = ls.last();
        assert forall|i: int| 0 <= i < l.len() implies #[trigger] l[i] != '\n' by {
            assert(l == ls[ls.len() - 1]);
        }
        lemma_split_lines_append(lines_text(front), l);
        let body = lines_text(front) + l;
        reveal_strlit("\n");
        assert(Seq::<char>::empty() + l =~= l);
        assert(front.push(seq![]).update(front.len() as int, l) =~= ls);
        assert((body + "\n"@).drop_last() =~= body) by {
            reveal_strlit("\n");
        }
        assert((body + "\n"@).last() == '\n') by {
            reveal_strlit("\n");
        }
        assert(lines_text(ls) == body + "\n"@);
        assert(split_lines(body + "\n"@) == split_lines(body).push(seq![]));
        assert(split_lines(body) == ls);
    }
}

proof fn lemma_find_from_first(s: Seq<char>, c: char, from: int, k: int)
    requires
        0 <= from <= k < s.len(),
        s[k] == c,
        forall|i: int| from <= i < k ==> s[i] != c,
    ensures
        find_from(s, c, from) == Some(k),
    decreases k - from,
{
    if from < k {
        lemma_find_from_first(s, c, from + 1, k);
    }
}

proof fn lemma_find_from_absent(s: Seq<char>, c: char, from: int)
    requires
        0 <= from,
        forall|i: int| from <= i < s.len() ==> s[i] != c,
    ensures
        find_from(s, c, from) is None,
    decreases s.len() - from,
{
    if from < s.len() {
        lemma_find_from_absent(s, c, from + 1);
    }
}

proof fn lemma_trim_clean(s: Seq<char>)
    requires
        s.len() > 0,
        !is_ws(s[0]),
        !is_ws(s.last()),
    ensures
        trim(s) == s,
{
}

proof fn lemma_trim_end_keeps_first(s: Seq<char>)
    requires
        s.len() > 0,
        !is_ws(s[0]),
    ensures
        trim_end(s).len() > 0,
        trim_end(s)[0] == s[0],
    decreases s.len(),
{
    if is_ws(s.last()) {
        lemma_trim_end_keeps_first(s.drop_last());
    }
}

proof fn lemma_parse_pair_line(loc: Locale, p: (Seq<char>, Seq<char>), lineno: nat)
    requires
        clean_pair(p),
    ensures
        parse_line(loc, pair_line(p), lineno) == LineParse::Pair(p.0, p.1),
{
    let line = pair_line(p);
    let (a, b) = p;
    reveal_strlit(",");
    assert(line.len() == a.len() + 1 + b.len());
    assert(line[0] == a[0]);
    assert(line.last() == b.last());
    assert(strip_leading(line, '\u{feff}') == line);
    lemma_trim_clean(line);
    assert forall|i: int| 0 <= i < line.len() implies line[i] != '\t' && line[i] != '，' by {
        if i < a.len() {
            assert(line[i] == a[i]);
        } else if i > a.len() {
            assert(line[i] == b[i - a.len() - 1]);
        }
    }
    lemma_find_from_absent(line, '\t', 0);
    lemma_find_from_absent(line, '，', 0);
    assert forall|i: int| 0 <= i < a.len() implies line[i] != ',' by {
        assert(line[i] == a[i]);
    }
    lemma_find_from_first(line, ',', 0, a.len() as int);
    assert(line.take(a.len() as int) =~= a);
    assert(line.skip(a.len() as int + 1) =~= b);
    lemma_trim_clean(a);
    lemma_trim_clean(b);
}

proof fn lemma_parse_note_line(loc: Locale, e: Seq<char>, lineno: nat)
    ensures
        parse_line(loc, note_line(e), lineno) == LineParse::Blank,
{
    let line = note_line(e);
    reveal_strlit("# 解析失败: ");
    assert(line[0] == '#');
    assert(strip_leading(line, '\u{feff}') == line);
    assert(trim_start(line) == line);
    lemma_trim_end_keeps_first(line);
}

proof fn lemma_parse_lines_pairs(loc: Locale, pairs: Seq<(Seq<char>, Seq<char>)>)
    requires
        forall|k: int| 0 <= k < pairs.len() ==> clean_pair(#[trigger] pairs[k]),
    ensures
        parse_lines(loc, pairs.map_values(|p: (Seq<char>, Seq<char>)| pair_line(p))) == (
            pairs,
            Seq::<Seq<char>>::empty(),
        ),
    decreases pairs.len(),
{
    let pl = pairs.map_values(|p: (Seq<char>, Seq<char>)| pair_line(p));
    if pairs.len() > 0 {
        let front = pairs.drop_last();
        lemma_parse_lines_pairs(loc, front);
        assert(pl.drop_last() =~= front.map_values(|p: (Seq<char>, Seq<char>)| pair_line(p)));
        lemma_parse_pair_line(loc, pairs.last(), pl.len());
        assert(front.push(pairs.last()) =~= pairs);
    } else {
        assert(pl =~= Seq::<Seq<char>>::empty());
    }
}

proof fn lemma_parse_lines_blank_tail(loc: Locale, head: Seq<Seq<char>>, notes: Seq<Seq<char>>)
    ensures
        parse_lines(loc, head + notes.map_values(|e: Seq<char>| note_line(e))) == parse_lines(
            loc,
            head,
        ),
    decreases notes.len(),
{
    let nl = notes.map_values(|e: Seq<char>| note_line(e));
    if notes.len() == 0 {
        assert(head + nl =~= head);
    } else {
        let front = notes.drop_last();
        lemma_parse_lines_blank_tail(loc, head, front);
        assert((head + nl).drop_last() =~= head + front.map_values(|e: Seq<char>| note_line(e)));
        lemma_parse_note_line(loc, notes.last(), (head + nl).len());
    }
}

/// A mapping text written by [`mapping_text`] reads back as the same pairs
/// and no errors: the error comments are ignored. This holds for pairs whose
/// names survive the line format (see [`clean_pair`]) and for errors
/// without line breaks.
pub proof fn law_mapping_text_reads_back(
    loc: Locale,
    pairs: Seq<(Seq<char>, Seq<char>)>,
    notes: Seq<Seq<char>>,
)
    requires
        forall|k: int| 0 <= k < pairs.len() ==> clean_pair(#[trigger] pairs[k]),
        forall|k: int, i: int| 0 <= k < notes.len() && 0 <= i < notes[k].len() ==> #[trigger] notes[k][i] != '\n',
    ensures
        parse_mapping_spec(loc, mapping_text_spec(pairs, notes)) == (pairs, Seq::<Seq<char>>::empty()),
{
    let pl = pairs.map_values(|p: (Seq<char>, Seq<char>)| pair_line(p));
    let nl = notes.map_values(|e: Seq<char>| note_line(e));
    let ls = pl + nl;
    reveal_strlit(",");
    reveal_strlit("# 解析失败: ");
    assert forall|k: int, i: int| 0 <= k < ls.len() && 0 <= i < ls[k].len() implies #[trigger] ls[k][i] != '\n' by {
        if k < pl.len() {
            let p = pairs[k];
            assert(ls[k] == p.0 + ","@ + p.1);
            if i < p.0.len() {
                assert(ls[k][i] == p.0[i]);
            } else if i > p.0.len() {
                assert(ls[k][i] == p.1[i - p.0.len() - 1]);
            }
        } else {
            let e = notes[k - pl.len()];
            assert(ls[k] == "# 解析失败: "@ + e);
            if i >= 8 {
                assert(ls[k][i] == e[i - 8]);
            }
        }
    }
    lemma_split_lines_text(ls);
    lemma_parse_lines_blank_tail(loc, pl, notes);
    lemma_parse_lines_pairs(loc, pairs);
    assert(ls.push(seq![]).drop_last() =~= ls);
    assert(parse_line(loc, Seq::<char>::empty(), ls.push(seq![]).len()) == LineParse::Blank);
}

} // verus!

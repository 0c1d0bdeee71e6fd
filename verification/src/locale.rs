//! Language of the engine's messages: Chinese or English.
//!
//! The current language is a value that the caller owns (one per process in
//! the command-line tool) and hands to every function that produces text.

use vstd::prelude::*;

use crate::text::{lowercase, to_lowercase};

verus! {

/// Language of the engine's messages.
#[derive(Debug, Clone, Copy, PartialEq, Eq, Structural)]
pub enum Locale {
    Zh,
    En,
}

impl Default for Locale {
    /// The language before any is chosen: Chinese.
    fn default() -> (res: Locale)
        ensures
            res == Locale::Zh,
    {
        Locale::Zh
    }
}

/// The message for `loc`: `zh` in Chinese, `en` otherwise.
pub open spec fn tr_spec(loc: Locale, zh: Seq<char>, en: Seq<char>) -> Seq<char> {
    match loc {
        Locale::Zh => zh,
        Locale::En => en,
    }
}

/// Whether a language tag selects Chinese: once lower-cased, it starts with
/// "zh".
pub open spec fn is_zh_tag(tag: Seq<char>) -> bool {
    let l = lowercase(tag);
    &&& l.len() >= 2
    &&& l[0] == 'z'
    &&& l[1] == 'h'
}

/// The language that a tag selects.
pub open spec fn locale_of_tag(tag: Seq<char>) -> Locale {
    if is_zh_tag(tag) {
        Locale::Zh
    } else {
        Locale::En
    }
}

/// Makes `locale` the current language.
pub fn set_locale(current: &mut Locale, locale: Locale)
    ensures
        *final(current) == locale,
{
    *current = locale;
}

/// The current language.
pub fn locale(current: &Locale) -> (res: Locale)
    ensures
        res == *current,
{
    *current
}

/// Makes the language that `tag` names current: Chinese for tags that start
/// with "zh" once lower-cased ("zh", "zh-CN", "ZH_tw"), English for all others.
pub fn set_locale_by_tag(current: &mut Locale, tag: &str)
    ensures
        *final(current) == locale_of_tag(tag@),
{
    let lower = to_lowercase(tag);
    let l = lower.as_str();
    let n = l.unicode_len();
    let zh = if n >= 2 {
        l.get_char(0) == 'z' && l.get_char(1) == 'h'
    } else {
        false
    };
    set_locale(current, if zh { Locale::Zh } else { Locale::En });
}

/// The message in the current language.
pub fn tr(loc: Locale, zh: &str, en: &str) -> (res: String)
    ensures
        res@ == tr_spec(loc, zh@, en@),
{
    match loc {
        Locale::Zh => zh.to_owned(),
        Locale::En => en.to_owned(),
    }
}

} // verus!

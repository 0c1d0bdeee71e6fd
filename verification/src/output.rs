//! Naming of output files: which files count as images, and the temporary
//! sibling a result is written to before it replaces its destination.

use vstd::prelude::*;

use crate::text::{chars_of, hex, push_hex, push_str};

verus! {

/// ASCII lower-casing of one character, as `char::to_ascii_lowercase`.
pub open spec fn ascii_lower(c: char) -> char {
    if 'A' <= c && c <= 'Z' {
        ((c as u32) + 32) as char
    } else {
        c
    }
}

/// The file extensions read as images: png, jpg, jpeg, bmp, webp, gif, tif,
/// tiff.
pub open spec fn is_image_ext_spec(e: Seq<char>) -> bool {
    ||| e =~= seq!['p', 'n', 'g']
    ||| e =~= seq!['j', 'p', 'g']
    ||| e =~= seq!['j', 'p', 'e', 'g']
    ||| e =~= seq!['b', 'm', 'p']
    ||| e =~= seq!['w', 'e', 'b', 'p']
    ||| e =~= seq!['g', 'i', 'f']
    ||| e =~= seq!['t', 'i', 'f']
    ||| e =~= seq!['t', 'i', 'f', 'f']
}

fn same_chars(a: &Vec<char>, b: &[char]) -> (res: bool)
    ensures
        res == (a@ =~= b@),
{
    if a.len() != b.len() {
        return false;
    }
    for i in 0..a.len()
        invariant
            a@.len() == b@.len(),
            forall|j: int| 0 <= j < i ==> a@[j] == b@[j],
    {
        if a[i] != b[i] {
            return false;
        }
    }
    true
}

/// Whether a file extension names an image format, without regard to ASCII
/// case ("PNG", "Jpeg").
pub fn is_image_extension(ext: &str) -> (res: bool)
    ensures
        res == is_image_ext_spec(ext@.map_values(|c: char| ascii_lower(c))),
{
    let chars = chars_of(ext);
    let mut lower: Vec<char> = Vec::new();
    for i in 0..chars.len()
        invariant
            lower@ == chars@.take(i as int).map_values(|c: char| ascii_lower(c)),
    {
        let c = chars[i];
        let l = if 'A' <= c && c <= 'Z' {
            match crate::text::char_from_u32((c as u32) + 32) {
                Some(l) => l,
                None => c,
            }
        } else {
            c
        };
        lower.push(l);
        assert(chars@.take(i + 1) == chars@.take(i as int).push(c));
    }
    assert(chars@.take(chars@.len() as int) == chars@);
    same_chars(&lower, &['p', 'n', 'g']) || same_chars(&lower, &['j', 'p', 'g'])
        || same_chars(&lower, &['j', 'p', 'e', 'g']) || same_chars(&lower, &['b', 'm', 'p'])
        || same_chars(&lower, &['w', 'e', 'b', 'p']) || same_chars(&lower, &['g', 'i', 'f'])
        || same_chars(&lower, &['t', 'i', 'f']) || same_chars(&lower, &['t', 'i', 'f', 'f'])
}

/// Name of the temporary file written next to `name` before it replaces it:
/// `.pic-<tag>-<nanos in hex>-<name>`.
pub open spec fn temp_sibling_spec(tag: Seq<char>, nanos: nat, name: Seq<char>) -> Seq<char> {
    ".pic-"@ + tag + "-"@ + hex(nanos) + "-"@ + name
}

/// The temporary sibling name for `name`; `nanos` is the sub-second part of
/// the current time.
pub fn temp_sibling_name(tag: &str, nanos: u32, name: &str) -> (res: String)
    ensures
        res@ == temp_sibling_spec(tag@, nanos as nat, name@),
{
    let mut s = String::new();
    push_str(&mut s, ".pic-");
    push_str(&mut s, tag);
    push_str(&mut s, "-");
    push_hex(&mut s, nanos as u128);
    push_str(&mut s, "-");
    push_str(&mut s, name);
    s
}

} // verus!

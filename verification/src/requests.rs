//! Checks on the requests that the graphical front end and the tool server
//! hand to the engine: which files were picked, which preview was asked
//! for, and where a rename mapping comes from.

use vstd::prelude::*;

use crate::text::push_str;

verus! {

/// A request must pick at least one image; the refusal reads
/// "没有选中任何图片".
pub fn check_selection(files: &Vec<String>) -> (res: Result<(), String>)
    ensures
        res is Ok <==> files@.len() > 0,
        res matches Err(e) ==> e@ == "没有选中任何图片"@,
{
    if files.len() == 0 {
        let mut e = String::new();
        push_str(&mut e, "没有选中任何图片");
        return Err(e);
    }
    Ok(())
}

/// The operation a preview shows.
#[derive(Debug, Clone, Copy, PartialEq, Eq, Structural)]
pub enum PreviewKind {
    Adjust,
    Enhance,
    Crop,
}

/// The preview kind a name selects: "adjust", "enhance" or "crop".
pub open spec fn preview_kind_of(name: Seq<char>) -> Option<PreviewKind> {
    if name == "adjust"@ {
        Some(PreviewKind::Adjust)
    } else if name == "enhance"@ {
        Some(PreviewKind::Enhance)
    } else if name == "crop"@ {
        Some(PreviewKind::Crop)
    } else {
        None
    }
}

fn str_eq(a: &str, b: &str) -> (res: bool)
    ensures
        res == (a@ == b@),
{
    let n = a.unicode_len();
    if n != b.unicode_len() {
        return false;
    }
    for i in 0..n
        invariant
            n == a@.len() == b@.len(),
            forall|j: int| 0 <= j < i ==> a@[j] == b@[j],
    {
        if a.get_char(i) != b.get_char(i) {
            return false;
        }
    }
    assert(a@ =~= b@);
    true
}

/// Reads a preview kind; other names are refused with "未知预览类型 <name>".
pub fn parse_preview_kind(name: &str) -> (res: Result<PreviewKind, String>)
    ensures
        res matches Ok(k) ==> preview_kind_of(name@) == Some(k),
        res matches Err(e) ==> preview_kind_of(name@) is None && e@ == "未知预览类型 "@ + name@,
{
    if str_eq(name, "adjust") {
        Ok(PreviewKind::Adjust)
    } else if str_eq(name, "enhance") {
        Ok(PreviewKind::Enhance)
    } else if str_eq(name, "crop") {
        Ok(PreviewKind::Crop)
    } else {
        let mut e = String::new();
        push_str(&mut e, "未知预览类型 ");
        push_str(&mut e, name);
        Err(e)
    }
}

/// Where a rename request's mapping comes from.
#[derive(Debug, Clone)]
pub enum MappingSource {
    /// A mapping file, by path.
    File(String),
    /// Mapping text given inline.
    Text(String),
}

/// The mapping source of a rename request: the file when one is named,
/// else the inline text; with neither the request is refused with
/// "map_file or mapping_text is required".
pub fn mapping_source(map_file: Option<String>, mapping_text: Option<String>) -> (res: Result<
    MappingSource,
    String,
>)
    ensures
        map_file matches Some(f) ==> res matches Ok(MappingSource::File(g)) && g@ == f@,
        map_file is None ==> (mapping_text matches Some(t) ==> (res matches Ok(
            MappingSource::Text(u),
        ) && u@ == t@)),
        (map_file is None && mapping_text is None) ==> (res matches Err(e) && e@
            == "map_file or mapping_text is required"@),
{
    match map_file {
        Some(f) => Ok(MappingSource::File(f)),
        None => match mapping_text {
            Some(t) => Ok(MappingSource::Text(t)),
            None => {
                let mut e = String::new();
                push_str(&mut e, "map_file or mapping_text is required");
                Err(e)
            },
        },
    }
}

} // verus!

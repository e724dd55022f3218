//! Type filter targets and extension categories.

use vstd::prelude::*;

use crate::strings::{chars_eq_str, chars_of};


verus! {

/// A named group of file extensions.
#[derive(Debug, Clone, Copy, PartialEq, Eq, Structural)]
pub enum ExtensionCategory {
    Picture,
    Video,
    Audio,
    Document,
    Presentation,
    Spreadsheet,
    Pdf,
    Archive,
    Code,
    Executable,
}

/// Target for type-based filtering.
#[derive(Debug, Clone, Copy, PartialEq, Eq, Structural)]
pub enum TypeFilterTarget {
    File,
    Directory,
    Extensions(ExtensionCategory),
}

/// The views of a sequence of string slices.
pub open spec fn strs_views(v: Seq<&str>) -> Seq<Seq<char>> {
    v.map_values(|x: &str| x@)
}

/// The extensions of a category.
pub open spec fn category_extensions(cat: ExtensionCategory) -> Seq<Seq<char>> {
    match cat {
        ExtensionCategory::Picture => seq!["jpg"@, "jpeg"@, "png"@, "gif"@, "bmp"@, "tif"@, "tiff"@, "webp"@, "ico"@, "svg"@, "heic"@, "heif"@, "raw"@, "arw"@, "cr2"@, "orf"@, "raf"@, "psd"@, "ai"@],
        ExtensionCategory::Video => seq!["mp4"@, "m4v"@, "mov"@, "avi"@, "mkv"@, "wmv"@, "webm"@, "flv"@, "mpg"@, "mpeg"@, "3gp"@, "3g2"@, "ts"@, "mts"@, "m2ts"@],
        ExtensionCategory::Audio => seq!["mp3"@, "wav"@, "flac"@, "aac"@, "ogg"@, "oga"@, "opus"@, "wma"@, "m4a"@, "alac"@, "aiff"@],
        ExtensionCategory::Document => seq!["txt"@, "md"@, "rst"@, "doc"@, "docx"@, "rtf"@, "odt"@, "pdf"@, "pages"@, "rtfd"@],
        ExtensionCategory::Presentation => seq!["ppt"@, "pptx"@, "key"@, "odp"@],
        ExtensionCategory::Spreadsheet => seq!["xls"@, "xlsx"@, "csv"@, "numbers"@, "ods"@],
        ExtensionCategory::Pdf => seq!["pdf"@],
        ExtensionCategory::Archive => seq!["zip"@, "rar"@, "7z"@, "tar"@, "gz"@, "tgz"@, "bz2"@, "xz"@, "zst"@, "cab"@, "iso"@, "dmg"@],
        ExtensionCategory::Code => seq!["rs"@, "ts"@, "tsx"@, "js"@, "jsx"@, "c"@, "cc"@, "cpp"@, "cxx"@, "h"@, "hpp"@, "hh"@, "java"@, "cs"@, "py"@, "go"@, "rb"@, "swift"@, "kt"@, "kts"@, "php"@, "html"@, "css"@, "scss"@, "sass"@, "less"@, "json"@, "yaml"@, "yml"@, "toml"@, "ini"@, "cfg"@, "sh"@, "zsh"@, "fish"@, "ps1"@, "psm1"@, "sql"@, "lua"@, "pl"@, "pm"@, "r"@, "m"@, "mm"@, "dart"@, "scala"@, "ex"@, "exs"@],
        ExtensionCategory::Executable => seq!["exe"@, "msi"@, "bat"@, "cmd"@, "com"@, "ps1"@, "psm1"@, "app"@, "apk"@, "ipa"@, "jar"@, "bin"@, "run"@, "pkg"@],
    }
}

/// Lists the extensions of a category.
pub fn category_extension_list(cat: ExtensionCategory) -> (v: Vec<&'static str>)
    ensures
        strs_views(v@) == category_extensions(cat),
{
    let v: Vec<&'static str> = match cat {
        ExtensionCategory::Picture => vec!["jpg", "jpeg", "png", "gif", "bmp", "tif", "tiff", "webp", "ico", "svg", "heic", "heif", "raw", "arw", "cr2", "orf", "raf", "psd", "ai"],
        ExtensionCategory::Video => vec!["mp4", "m4v", "mov", "avi", "mkv", "wmv", "webm", "flv", "mpg", "mpeg", "3gp", "3g2", "ts", "mts", "m2ts"],
        ExtensionCategory::Audio => vec!["mp3", "wav", "flac", "aac", "ogg", "oga", "opus", "wma", "m4a", "alac", "aiff"],
        ExtensionCategory::Document => vec!["txt", "md", "rst", "doc", "docx", "rtf", "odt", "pdf", "pages", "rtfd"],
        ExtensionCategory::Presentation => vec!["ppt", "pptx", "key", "odp"],
        ExtensionCategory::Spreadsheet => vec!["xls", "xlsx", "csv", "numbers", "ods"],
        ExtensionCategory::Pdf => vec!["pdf"],
        ExtensionCategory::Archive => vec!["zip", "rar", "7z", "tar", "gz", "tgz", "bz2", "xz", "zst", "cab", "iso", "dmg"],
        ExtensionCategory::Code => vec!["rs", "ts", "tsx", "js", "jsx", "c", "cc", "cpp", "cxx", "h", "hpp", "hh", "java", "cs", "py", "go", "rb", "swift", "kt", "kts", "php", "html", "css", "scss", "sass", "less", "json", "yaml", "yml", "toml", "ini", "cfg", "sh", "zsh", "fish", "ps1", "psm1", "sql", "lua", "pl", "pm", "r", "m", "mm", "dart", "scala", "ex", "exs"],
        ExtensionCategory::Executable => vec!["exe", "msi", "bat", "cmd", "com", "ps1", "psm1", "app", "apk", "ipa", "jar", "bin", "run", "pkg"],
    };
    assert(strs_views(v@) =~= category_extensions(cat));
    v
}

/// Tests whether `v` equals one of the listed strings.
pub fn one_of(v: &Vec<char>, list: &Vec<&str>) -> (r: bool)
    ensures
        r == strs_views(list@).contains(v@),
{
    let mut i: usize = 0;
    while i < list.len()
        invariant
            i <= list.len(),
            forall|j: int| 0 <= j < i ==> list@[j]@ != v@,
        decreases list.len() - i,
    {
        if chars_eq_str(v, list[i]) {
            assert(strs_views(list@)[i as int] == v@);
            return true;
        }
        i = i + 1;
    }
    assert forall|j: int| 0 <= j < strs_views(list@).len() implies strs_views(list@)[j] != v@ by {
        assert(list@[j]@ != v@);
    }
    false
}

/// Tests whether an extension belongs to a category.
pub fn category_has_extension(cat: ExtensionCategory, ext: &Vec<char>) -> (r: bool)
    ensures
        r == category_extensions(cat).contains(ext@),
{
    let list = category_extension_list(cat);
    one_of(ext, &list)
}

/// The names each type target is known by, in lookup order.
pub open spec fn type_name_table() -> Seq<(Seq<Seq<char>>, TypeFilterTarget)> {
    seq![
        (seq!["file"@, "files"@], TypeFilterTarget::File),
        (seq!["folder"@, "folders"@, "dir"@, "directory"@], TypeFilterTarget::Directory),
        (seq!["picture"@, "pictures"@, "image"@, "images"@, "photo"@, "photos"@], TypeFilterTarget::Extensions(ExtensionCategory::Picture)),
        (seq!["video"@, "videos"@, "movie"@, "movies"@], TypeFilterTarget::Extensions(ExtensionCategory::Video)),
        (seq!["audio"@, "audios"@, "music"@, "song"@, "songs"@], TypeFilterTarget::Extensions(ExtensionCategory::Audio)),
        (seq!["doc"@, "docs"@, "document"@, "documents"@, "text"@, "office"@], TypeFilterTarget::Extensions(ExtensionCategory::Document)),
        (seq!["presentation"@, "presentations"@, "ppt"@, "slides"@], TypeFilterTarget::Extensions(ExtensionCategory::Presentation)),
        (seq!["spreadsheet"@, "spreadsheets"@, "xls"@, "excel"@, "sheet"@, "sheets"@], TypeFilterTarget::Extensions(ExtensionCategory::Spreadsheet)),
        (seq!["pdf"@], TypeFilterTarget::Extensions(ExtensionCategory::Pdf)),
        (seq!["archive"@, "archives"@, "compressed"@, "zip"@], TypeFilterTarget::Extensions(ExtensionCategory::Archive)),
        (seq!["code"@, "source"@, "dev"@], TypeFilterTarget::Extensions(ExtensionCategory::Code)),
        (seq!["exe"@, "exec"@, "executable"@, "executables"@, "program"@, "programs"@, "app"@, "apps"@], TypeFilterTarget::Extensions(ExtensionCategory::Executable)),
    ]
}

/// The first entry from `i` on whose names hold `v`.
pub open spec fn lookup_from(table: Seq<(Seq<Seq<char>>, TypeFilterTarget)>, v: Seq<char>, i: int) -> Option<TypeFilterTarget>
    decreases table.len() - i,
{
    if i < 0 || i >= table.len() {
        None
    } else if table[i].0.contains(v) {
        Some(table[i].1)
    } else {
        lookup_from(table, v, i + 1)
    }
}

/// The target a `type:` category name denotes.
pub open spec fn type_target_of(v: Seq<char>) -> Option<TypeFilterTarget> {
    lookup_from(type_name_table(), v, 0)
}

fn type_name_table_exec() -> (t: Vec<(Vec<&'static str>, TypeFilterTarget)>)
    ensures
        t@.len() == type_name_table().len(),
        forall|i: int| 0 <= i < t@.len() ==> strs_views(#[trigger] t@[i].0@) == type_name_table()[i].0 && t@[i].1 == type_name_table()[i].1,
{
    let mut t: Vec<(Vec<&'static str>, TypeFilterTarget)> = Vec::new();
    let names: Vec<&'static str> = vec!["file", "files"];
    assert(strs_views(names@) =~= type_name_table()[0].0);
    t.push((names, TypeFilterTarget::File));
    let names: Vec<&'static str> = vec!["folder", "folders", "dir", "directory"];
    assert(strs_views(names@) =~= type_name_table()[1].0);
    t.push((names, TypeFilterTarget::Directory));
    let names: Vec<&'static str> = vec!["picture", "pictures", "image", "images", "photo", "photos"];
    assert(strs_views(names@) =~= type_name_table()[2].0);
    t.push((names, TypeFilterTarget::Extensions(ExtensionCategory::Picture)));
    let names: Vec<&'static str> = vec!["video", "videos", "movie", "movies"];
    assert(strs_views(names@) =~= type_name_table()[3].0);
    t.push((names, TypeFilterTarget::Extensions(ExtensionCategory::Video)));
    let names: Vec<&'static str> = vec!["audio", "audios", "music", "song", "songs"];
    assert(strs_views(names@) =~= type_name_table()[4].0);
    t.push((names, TypeFilterTarget::Extensions(ExtensionCategory::Audio)));
    let names: Vec<&'static str> = vec!["doc", "docs", "document", "documents", "text", "office"];
    assert(strs_views(names@) =~= type_name_table()[5].0);
    t.push((names, TypeFilterTarget::Extensions(ExtensionCategory::Document)));
    let names: Vec<&'static str> = vec!["presentation", "presentations", "ppt", "slides"];
    assert(strs_views(names@) =~= type_name_table()[6].0);
    t.push((names, TypeFilterTarget::Extensions(ExtensionCategory::Presentation)));
    let names: Vec<&'static str> = vec!["spreadsheet", "spreadsheets", "xls", "excel", "sheet", "sheets"];
    assert(strs_views(names@) =~= type_name_table()[7].0);
    t.push((names, TypeFilterTarget::Extensions(ExtensionCategory::Spreadsheet)));
    let names: Vec<&'static str> = vec!["pdf"];
    assert(strs_views(names@) =~= type_name_table()[8].0);
    t.push((names, TypeFilterTarget::Extensions(ExtensionCategory::Pdf)));
    let names: Vec<&'static str> = vec!["archive", "archives", "compressed", "zip"];
    assert(strs_views(names@) =~= type_name_table()[9].0);
    t.push((names, TypeFilterTarget::Extensions(ExtensionCategory::Archive)));
    let names: Vec<&'static str> = vec!["code", "source", "dev"];
    assert(strs_views(names@) =~= type_name_table()[10].0);
    t.push((names, TypeFilterTarget::Extensions(ExtensionCategory::Code)));
    let names: Vec<&'static str> = vec!["exe", "exec", "executable", "executables", "program", "programs", "app", "apps"];
    assert(strs_views(names@) =~= type_name_table()[11].0);
    t.push((names, TypeFilterTarget::Extensions(ExtensionCategory::Executable)));
    t
}

/// Looks up a type filter target by name.
pub fn lookup_type_filter_target(value: &str) -> (r: Option<TypeFilterTarget>)
    ensures
        r == type_target_of(value@),
{
    let v = chars_of(value);
    let table = type_name_table_exec();
    let mut i: usize = 0;
    while i < table.len()
        invariant
            i <= table.len(),
            table@.len() == type_name_table().len(),
            forall|k: int| 0 <= k < table@.len() ==> strs_views(#[trigger] table@[k].0@) == type_name_table()[k].0 && table@[k].1 == type_name_table()[k].1,
            v@ == value@,
            type_target_of(v@) == lookup_from(type_name_table(), v@, i as int),
        decreases table.len() - i,
    {
        if one_of(&v, &table[i].0) {
            assert(type_name_table()[i as int].0.contains(v@));
            return Some(table[i].1);
        }
        i = i + 1;
    }
    None
}

} // verus!

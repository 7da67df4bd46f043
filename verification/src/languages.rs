//! The language tags the indexer knows, keyed by file extension.

use vstd::prelude::*;

verus! {

/// The language tag for a file extension, or `None` for an extension that no
/// extractor supports.
pub open spec fn lang_of_ext(e: Seq<char>) -> Option<Seq<char>> {
    if e == "rs"@ {
        Some("rust"@)
    } else if e == "py"@ {
        Some("python"@)
    } else if e == "js"@ {
        Some("javascript"@)
    } else if e == "jsx"@ {
        Some("javascript"@)
    } else if e == "ts"@ {
        Some("typescript"@)
    } else if e == "tsx"@ {
        Some("tsx"@)
    } else if e == "java"@ {
        Some("java"@)
    } else if e == "c"@ {
        Some("c"@)
    } else if e == "h"@ {
        Some("c"@)
    } else if e == "cpp"@ || e == "cc"@ || e == "cxx"@ {
        Some("cpp"@)
    } else if e == "hpp"@ {
        Some("cpp"@)
    } else if e == "go"@ {
        Some("go"@)
    } else if e == "rb"@ {
        Some("ruby"@)
    } else if e == "php"@ {
        Some("php"@)
    } else {
        None
    }
}

/// Maps a file extension to the tag of the language it belongs to.
pub fn detect_language_from_extension(extension: &str) -> (r: Option<String>)
    ensures
        r.deep_view() == lang_of_ext(extension@),
{
    if crate::strutil::str_eq(extension, "rs") {
        Some("rust".to_owned())
    } else if crate::strutil::str_eq(extension, "py") {
        Some("python".to_owned())
    } else if crate::strutil::str_eq(extension, "js") {
        Some("javascript".to_owned())
    } else if crate::strutil::str_eq(extension, "jsx") {
        Some("javascript".to_owned())
    } else if crate::strutil::str_eq(extension, "ts") {
        Some("typescript".to_owned())
    } else if crate::strutil::str_eq(extension, "tsx") {
        Some("tsx".to_owned())
    } else if crate::strutil::str_eq(extension, "java") {
        Some("java".to_owned())
    } else if crate::strutil::str_eq(extension, "c") {
        Some("c".to_owned())
    } else if crate::strutil::str_eq(extension, "h") {
        Some("c".to_owned())
    } else if crate::strutil::str_eq(extension, "cpp") || crate::strutil::str_eq(extension, "cc")
        || crate::strutil::str_eq(extension, "cxx") {
        Some("cpp".to_owned())
    } else if crate::strutil::str_eq(extension, "hpp") {
        Some("cpp".to_owned())
    } else if crate::strutil::str_eq(extension, "go") {
        Some("go".to_owned())
    } else if crate::strutil::str_eq(extension, "rb") {
        Some("ruby".to_owned())
    } else if crate::strutil::str_eq(extension, "php") {
        Some("php".to_owned())
    } else {
        None
    }
}

/// The extensions with a parser grammar, in a fixed order.
pub fn get_supported_extensions() -> (r: Vec<&'static str>)
    ensures
        r@.map_values(|s: &str| s@) == seq![
            "rs"@,
            "py"@,
            "js"@,
            "jsx"@,
            "ts"@,
            "tsx"@,
            "java"@,
            "c"@,
            "cpp"@,
            "cc"@,
            "cxx"@,
            "hpp"@,
            "h"@,
            "go"@,
            "rb"@,
            "php"@,
        ],
{
    let r: Vec<&'static str> = vec![
        "rs",
        "py",
        "js",
        "jsx",
        "ts",
        "tsx",
        "java",
        "c",
        "cpp",
        "cc",
        "cxx",
        "hpp",
        "h",
        "go",
        "rb",
        "php",
    ];
    proof {
        assert(r@.map_values(|s: &str| s@) =~= seq![
            "rs"@,
            "py"@,
            "js"@,
            "jsx"@,
            "ts"@,
            "tsx"@,
            "java"@,
            "c"@,
            "cpp"@,
            "cc"@,
            "cxx"@,
            "hpp"@,
            "h"@,
            "go"@,
            "rb"@,
            "php"@,
        ]);
    }
    r
}

} // verus!

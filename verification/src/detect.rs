//! Language detection for candidate files, by file-name extension.

use vstd::prelude::*;

use crate::languages::lang_of_ext;

verus! {

/// Whether `i` is the last index of `s` holding the character `c`.
pub open spec fn is_last_index_of(s: Seq<char>, c: char, i: int) -> bool {
    0 <= i < s.len() && s[i] == c && (forall|j: int| i < j < s.len() ==> s[j] != c)
}

/// Whether `c` occurs in `s`.
pub open spec fn has_char(s: Seq<char>, c: char) -> bool {
    exists|i: int| 0 <= i < s.len() && s[i] == c
}

/// The file name of a path: the part after the last slash, or the whole path.
pub open spec fn file_name_of(p: Seq<char>) -> Seq<char> {
    if has_char(p, '/') {
        p.subrange((choose|i: int| is_last_index_of(p, '/', i)) + 1, p.len() as int)
    } else {
        p
    }
}

/// The extension of a file name: the part after the last dot, where a dot
/// occurs past the first character; a name with no dot, or opened by its
/// only dot, has none.
pub open spec fn extension_in(name: Seq<char>) -> Option<Seq<char>> {
    if exists|i: int| 1 <= i < name.len() && name[i] == '.' {
        Some(name.subrange((choose|i: int| is_last_index_of(name, '.', i)) + 1, name.len() as int))
    } else {
        None
    }
}

/// The language tag of a file path, or `None` when the path carries no
/// extension or an unsupported one.
pub open spec fn detected_language(p: Seq<char>) -> Option<Seq<char>> {
    match extension_in(file_name_of(p)) {
        Some(e) => lang_of_ext(e),
        None => None,
    }
}

/// A last index of `c` found by scanning is the unique `is_last_index_of`
/// witness.
proof fn lemma_last_index_unique(s: Seq<char>, c: char, i: int, j: int)
    requires
        is_last_index_of(s, c, i),
        is_last_index_of(s, c, j),
    ensures
        i == j,
{
    if i < j {
        assert(s[j] != c);
    }
    if j < i {
        assert(s[i] != c);
    }
}

/// The last index of `c` in `s`, or `None` if `c` does not occur.
fn find_last(s: &str, c: char) -> (r: Option<usize>)
    ensures
        match r {
            Some(i) => i < s@.len() && is_last_index_of(s@, c, i as int),
            None => !has_char(s@, c),
        },
{
    let n = s.unicode_len();
    let mut k: usize = n;
    while k > 0
        invariant
            0 <= k <= n,
            n == s@.len(),
            forall|j: int| k <= j < n ==> s@[j] != c,
        decreases k,
    {
        if s.get_char(k - 1) == c {
            return Some(k - 1);
        }
        k -= 1;
    }
    None
}

/// Detects the language of a file from the extension of its path.
pub fn detect_language(file_path: &str) -> (r: Option<String>)
    ensures
        r.deep_view() == detected_language(file_path@),
{
    let n = file_path.unicode_len();
    // The file name: everything after the last slash.
    let start: usize = match find_last(file_path, '/') {
        Some(i) => {
            proof {
                let w = choose|w: int| is_last_index_of(file_path@, '/', w);
                lemma_last_index_unique(file_path@, '/', w, i as int);
            }
            i + 1
        },
        None => 0,
    };
    let name = file_path.substring_char(start, n);
    proof {
        assert(name@ == file_name_of(file_path@));
    }
    // The extension: everything after the last dot, if one occurs past the
    // first character of the name.
    match find_last(name, '.') {
        Some(d) => {
            proof {
                let w = choose|w: int| is_last_index_of(name@, '.', w);
                lemma_last_index_unique(name@, '.', w, d as int);
            }
            if d >= 1 {
                let ext = name.substring_char(d + 1, name.unicode_len());
                crate::languages::detect_language_from_extension(ext)
            } else {
                proof {
                    assert forall|i: int| 1 <= i < name@.len() implies name@[i] != '.' by {}
                }
                None
            }
        },
        None => None,
    }
}

/// The file name of a path without its extension.
pub open spec fn file_stem_of(p: Seq<char>) -> Seq<char> {
    let name = file_name_of(p);
    match extension_in(name) {
        Some(e) => name.take(name.len() - e.len() - 1),
        None => name,
    }
}

/// The file name of `path` without its extension.
pub fn file_stem(path: &str) -> (r: String)
    ensures
        r@ == file_stem_of(path@),
{
    let n = path.unicode_len();
    let start: usize = match find_last(path, '/') {
        Some(i) => {
            proof {
                let w = choose|w: int| is_last_index_of(path@, '/', w);
                lemma_last_index_unique(path@, '/', w, i as int);
            }
            i + 1
        },
        None => 0,
    };
    let name = path.substring_char(start, n);
    proof {
        assert(name@ == file_name_of(path@));
    }
    match find_last(name, '.') {
        Some(d) => {
            proof {
                let w = choose|w: int| is_last_index_of(name@, '.', w);
                lemma_last_index_unique(name@, '.', w, d as int);
            }
            if d >= 1 {
                let stem = name.substring_char(0, d);
                proof {
                    let e = extension_in(name@)->Some_0;
                    assert(e == name@.subrange(d as int + 1, name@.len() as int));
                    assert(stem@ =~= name@.take(name@.len() - e.len() - 1));
                }
                stem.to_owned()
            } else {
                proof {
                    assert forall|i: int| 1 <= i < name@.len() implies name@[i] != '.' by {}
                }
                name.to_owned()
            }
        },
        None => name.to_owned(),
    }
}

/// The candidate-file extension allow-list, in a fixed order.
pub fn get_supported_extensions() -> (r: Vec<&'static str>)
    ensures
        r@.map_values(|s: &str| s@) == seq![
            "py"@,
            "js"@,
            "ts"@,
            "jsx"@,
            "tsx"@,
            "java"@,
            "c"@,
            "cpp"@,
            "cc"@,
            "cxx"@,
            "hpp"@,
            "h"@,
            "rs"@,
            "go"@,
            "rb"@,
            "php"@,
            "swift"@,
            "cs"@,
            "kt"@,
            "kts"@,
        ],
{
    let r: Vec<&'static str> = vec![
        "py",
        "js",
        "ts",
        "jsx",
        "tsx",
        "java",
        "c",
        "cpp",
        "cc",
        "cxx",
        "hpp",
        "h",
        "rs",
        "go",
        "rb",
        "php",
        "swift",
        "cs",
        "kt",
        "kts",
    ];
    proof {
        assert(r@.map_values(|s: &str| s@) =~= seq![
            "py"@,
            "js"@,
            "ts"@,
            "jsx"@,
            "tsx"@,
            "java"@,
            "c"@,
            "cpp"@,
            "cc"@,
            "cxx"@,
            "hpp"@,
            "h"@,
            "rs"@,
            "go"@,
            "rb"@,
            "php"@,
            "swift"@,
            "cs"@,
            "kt"@,
            "kts"@,
        ]);
    }
    r
}

} // verus!

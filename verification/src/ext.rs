//! The filter on file extensions: only files whose extension names a
//! text-like format are counted.

use crate::text::{chars_of, spells};
use vstd::prelude::*;

verus! {

/// The extensions of the files that are counted, in lower case.
pub const FILE_EXT_LIST: [&'static str; 41] = [
    "txt",
    "text",
    "md",
    "markdown",
    "log",
    "rs",
    "py",
    "js",
    "ts",
    "java",
    "c",
    "cpp",
    "h",
    "hpp",
    "go",
    "rb",
    "php",
    "swift",
    "kt",
    "scala",
    "r",
    "html",
    "htm",
    "css",
    "scss",
    "sass",
    "less",
    "xml",
    "svg",
    "json",
    "yaml",
    "yml",
    "toml",
    "ini",
    "csv",
    "tsv",
    "sql",
    "sh",
    "bash",
    "conf",
    "config",
];

/// The lower-case form of an ASCII capital; any other character itself.
pub open spec fn ascii_lower(c: char) -> char {
    if 'A' <= c <= 'Z' {
        ((c as u8) + 32) as char
    } else {
        c
    }
}

/// `text` with its ASCII capitals in lower case.
pub open spec fn lowercase(text: Seq<char>) -> Seq<char> {
    Seq::new(text.len(), |i: int| ascii_lower(text[i]))
}

/// Whether `text` is an entry of [`FILE_EXT_LIST`], letter for letter.
pub open spec fn is_listed(text: Seq<char>) -> bool {
    exists|i: int| 0 <= i < FILE_EXT_LIST.len() && #[trigger] FILE_EXT_LIST[i]@ == text
}

/// Whether a file with the extension `ext` is counted: its lower-case form is
/// listed.
pub open spec fn is_text_extension(ext: Seq<char>) -> bool {
    is_listed(lowercase(ext))
}

/// Whether a path with this extension, if it has any, is counted.
pub open spec fn accepts(ext: Option<Seq<char>>) -> bool {
    match ext {
        Some(e) => is_text_extension(e),
        None => false,
    }
}

/// The case of an extension does not matter: two extensions with one
/// lower-case form are both counted or both not, and so an extension is
/// counted exactly if its lower-case form is.
pub proof fn lemma_case_insensitive(a: Seq<char>, b: Seq<char>)
    requires
        lowercase(a) == lowercase(b),
    ensures
        is_text_extension(a) == is_text_extension(b),
        is_text_extension(a) == is_text_extension(lowercase(a)),
{
    assert(lowercase(lowercase(a)) =~= lowercase(a));
}

/// The extension of `path`, where it has one: what
/// `std::path::Path::extension` finds for a path with this text, by the path
/// syntax of the platform.
pub uninterp spec fn path_extension(path: Seq<char>) -> Option<Seq<char>>;

/// `std::path::Path::extension` on a path given as text. The result is the
/// extension of the path's file name without the dot, and is what
/// [`path_extension`] names. A path that holds no dot has no extension.
#[verifier::external_body]
fn extension_of(path: &str) -> (ext: Option<&str>)
    ensures
        ext matches Some(e) ==> path_extension(path@) == Some(e@),
        ext is None ==> path_extension(path@) is None,
        !path@.contains('.') ==> ext is None,
{
    match std::path::Path::new(path).extension() {
        Some(e) => e.to_str(),
        None => None,
    }
}

/// The characters of `text`, ASCII capitals in lower case.
fn lowercase_chars(text: &str) -> (chars: Vec<char>)
    ensures
        chars@ == lowercase(text@),
{
    let mut chars = chars_of(text);
    let n = chars.len();
    let mut i: usize = 0;
    while i < n
        invariant
            i <= n,
            n == text@.len(),
            chars@.len() == n,
            forall|j: int| 0 <= j < i ==> chars@[j] == ascii_lower(text@[j]),
            forall|j: int| i <= j < n ==> chars@[j] == text@[j],
        decreases n - i,
    {
        let c = chars[i];
        if 'A' <= c && c <= 'Z' {
            chars.set(i, ((c as u8) + 32) as char);
        }
        i = i + 1;
    }
    assert(chars@ =~= lowercase(text@));
    chars
}

/// Whether a file with the extension `ext` is counted.
pub fn is_text_ext(ext: &str) -> (ok: bool)
    ensures
        ok == is_text_extension(ext@),
{
    let lower = lowercase_chars(ext);
    let mut i: usize = 0;
    while i < FILE_EXT_LIST.len()
        invariant
            i <= FILE_EXT_LIST.len(),
            lower@ == lowercase(ext@),
            forall|j: int| 0 <= j < i ==> #[trigger] FILE_EXT_LIST[j]@ != lower@,
        decreases FILE_EXT_LIST.len() - i,
    {
        if spells(&lower, FILE_EXT_LIST[i]) {
            return true;
        }
        i = i + 1;
    }
    false
}

/// Whether the file at `path` is counted: it has an extension, and the
/// extension is listed, whatever its case.
pub fn is_valid_ext(path: &str) -> (ok: bool)
    ensures
        ok == accepts(path_extension(path@)),
        !path@.contains('.') ==> !ok,
{
    match extension_of(path) {
        Some(ext) => is_text_ext(ext),
        None => false,
    }
}

} // verus!

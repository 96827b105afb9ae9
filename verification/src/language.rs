//! Language detection by file name: exact names first, then the lowercased extension.
//! Names follow GitHub Linguist, so colors and legends can reuse its palette.

use vstd::prelude::*;
use crate::strings::{chars_equal, chars_of, string_of};

verus! {

/// The language of anything the tables do not name.
pub const UNKNOWN: &'static str = "Other";

/// What `Path::file_name` gives for the path written `path`, when it is text.
pub uninterp spec fn path_file_name(path: Seq<char>) -> Option<Seq<char>>;

/// `Path::file_name` on `path`, as text. The contract names the result and says nothing more:
/// splitting a path into components is std's own logic.
#[verifier::external_body]
pub(crate) fn file_name_of(path: &str) -> (r: Option<&str>)
    ensures
        r matches Some(n) ==> path_file_name(path@) == Some(n@),
        r is None ==> path_file_name(path@) is None,
{
    std::path::Path::new(path).file_name().and_then(|n| n.to_str())
}

/// What `Path::parent` gives for the path written `path`, when it is text.
pub uninterp spec fn path_parent(path: Seq<char>) -> Option<Seq<char>>;

/// `Path::parent` on `path`, as text. The contract names the result and says nothing more.
#[verifier::external_body]
pub(crate) fn parent_of(path: &str) -> (r: Option<&str>)
    ensures
        r matches Some(p) ==> path_parent(path@) == Some(p@),
        r is None ==> path_parent(path@) is None,
{
    std::path::Path::new(path).parent().and_then(|p| p.to_str())
}

/// The text after the last `.` of a file name, when a `.` stands anywhere but at its start.
pub open spec fn name_extension(name: Seq<char>) -> Option<Seq<char>>
    decreases name.len(),
{
    if name.len() <= 1 {
        None
    } else if name.last() == '.' {
        Some(Seq::empty())
    } else {
        match name_extension(name.drop_last()) {
            Some(e) => Some(e.push(name.last())),
            None => None,
        }
    }
}

/// The extension of the path written `path`: that of its file name, if it has one.
pub open spec fn path_extension(path: Seq<char>) -> Option<Seq<char>> {
    match path_file_name(path) {
        Some(n) => name_extension(n),
        None => None,
    }
}

proof fn lemma_name_extension_at(s: Seq<char>, p: int)
    requires
        1 <= p < s.len(),
        s[p] == '.',
        forall|j: int| p < j < s.len() ==> s[j] != '.',
    ensures
        name_extension(s) == Some(s.subrange(p + 1, s.len() as int)),
    decreases s.len(),
{
    if p == s.len() - 1 {
        assert(s.subrange(p + 1, s.len() as int) =~= Seq::<char>::empty());
    } else {
        let t = s.drop_last();
        lemma_name_extension_at(t, p);
        assert(t.subrange(p + 1, t.len() as int).push(s.last()) =~= s.subrange(p + 1, s.len() as int));
    }
}

proof fn lemma_name_extension_none(s: Seq<char>)
    requires
        forall|j: int| 1 <= j < s.len() ==> s[j] != '.',
    ensures
        name_extension(s) is None,
    decreases s.len(),
{
    if s.len() > 1 {
        lemma_name_extension_none(s.drop_last());
    }
}

/// The extension of a file name, as [`name_extension`] gives it: what `Path::extension` does
/// once the file name is split off.
fn extension_of_name(name: &str) -> (r: Option<String>)
    ensures
        match r {
            Some(e) => name_extension(name@) == Some(e@),
            None => name_extension(name@) is None,
        },
{
    let cs = chars_of(name);
    let n = cs.len();
    let mut i: usize = n;
    while i > 0 && cs[i - 1] != '.'
        invariant
            i <= n == cs@.len(),
            cs@ == name@,
            forall|j: int| i <= j < n ==> cs@[j] != '.',
        decreases i,
    {
        i = i - 1;
    }
    if i <= 1 {
        proof {
            lemma_name_extension_none(cs@);
        }
        None
    } else {
        proof {
            lemma_name_extension_at(cs@, i - 1);
        }
        Some(string_of(&cs, i, n))
    }
}

pub open spec fn language_by_name(name: Seq<char>) -> Option<Seq<char>> {
    if name == "BUILD"@ {
        Some("Starlark"@)
    } else if name == "BUILD.bazel"@ {
        Some("Starlark"@)
    } else if name == "BUILD.gn"@ {
        Some("GN"@)
    } else if name == "CMakeLists.txt"@ {
        Some("CMake"@)
    } else if name == "Dockerfile"@ {
        Some("Dockerfile"@)
    } else if name == "Makefile"@ {
        Some("Makefile"@)
    } else if name == "WORKSPACE"@ {
        Some("Starlark"@)
    } else {
        None
    }
}

pub open spec fn language_by_extension(ext: Seq<char>) -> Option<Seq<char>> {
    if ext == "c"@ {
        Some("C"@)
    } else if ext == "cc"@ {
        Some("C++"@)
    } else if ext == "cjs"@ {
        Some("JavaScript"@)
    } else if ext == "cpp"@ {
        Some("C++"@)
    } else if ext == "cs"@ {
        Some("C#"@)
    } else if ext == "css"@ {
        Some("CSS"@)
    } else if ext == "cxx"@ {
        Some("C++"@)
    } else if ext == "dart"@ {
        Some("Dart"@)
    } else if ext == "ex"@ {
        Some("Elixir"@)
    } else if ext == "exs"@ {
        Some("Elixir"@)
    } else if ext == "gn"@ {
        Some("GN"@)
    } else if ext == "gni"@ {
        Some("GN"@)
    } else if ext == "go"@ {
        Some("Go"@)
    } else if ext == "h"@ {
        Some("C"@)
    } else if ext == "hh"@ {
        Some("C++"@)
    } else if ext == "hpp"@ {
        Some("C++"@)
    } else if ext == "hs"@ {
        Some("Haskell"@)
    } else if ext == "html"@ {
        Some("HTML"@)
    } else if ext == "java"@ {
        Some("Java"@)
    } else if ext == "js"@ {
        Some("JavaScript"@)
    } else if ext == "json"@ {
        Some("JSON"@)
    } else if ext == "jsx"@ {
        Some("JavaScript"@)
    } else if ext == "kt"@ {
        Some("Kotlin"@)
    } else if ext == "lua"@ {
        Some("Lua"@)
    } else if ext == "m"@ {
        Some("Objective-C"@)
    } else if ext == "md"@ {
        Some("Markdown"@)
    } else if ext == "mjs"@ {
        Some("JavaScript"@)
    } else if ext == "mm"@ {
        Some("Objective-C++"@)
    } else if ext == "mts"@ {
        Some("TypeScript"@)
    } else if ext == "php"@ {
        Some("PHP"@)
    } else if ext == "prisma"@ {
        Some("Prisma"@)
    } else if ext == "proto"@ {
        Some("Protocol Buffer"@)
    } else if ext == "py"@ {
        Some("Python"@)
    } else if ext == "rb"@ {
        Some("Ruby"@)
    } else if ext == "rs"@ {
        Some("Rust"@)
    } else if ext == "scala"@ {
        Some("Scala"@)
    } else if ext == "scss"@ {
        Some("SCSS"@)
    } else if ext == "sh"@ {
        Some("Shell"@)
    } else if ext == "sql"@ {
        Some("SQL"@)
    } else if ext == "swift"@ {
        Some("Swift"@)
    } else if ext == "toml"@ {
        Some("TOML"@)
    } else if ext == "ts"@ {
        Some("TypeScript"@)
    } else if ext == "tsx"@ {
        Some("TypeScript"@)
    } else if ext == "vue"@ {
        Some("Vue"@)
    } else if ext == "wgsl"@ {
        Some("WGSL"@)
    } else if ext == "xml"@ {
        Some("XML"@)
    } else if ext == "yaml"@ {
        Some("YAML"@)
    } else if ext == "yml"@ {
        Some("YAML"@)
    } else if ext == "zig"@ {
        Some("Zig"@)
    } else {
        None
    }
}

fn name_language(name: &Vec<char>) -> (r: Option<&'static str>)
    ensures
        r matches Some(l) ==> language_by_name(name@) == Some(l@),
        r is None ==> language_by_name(name@) is None,
{
    if chars_equal(name, "BUILD") {
        return Some("Starlark");
    }
    if chars_equal(name, "BUILD.bazel") {
        return Some("Starlark");
    }
    if chars_equal(name, "BUILD.gn") {
        return Some("GN");
    }
    if chars_equal(name, "CMakeLists.txt") {
        return Some("CMake");
    }
    if chars_equal(name, "Dockerfile") {
        return Some("Dockerfile");
    }
    if chars_equal(name, "Makefile") {
        return Some("Makefile");
    }
    if chars_equal(name, "WORKSPACE") {
        return Some("Starlark");
    }
    None
}

fn extension_language(ext: &Vec<char>) -> (r: Option<&'static str>)
    ensures
        r matches Some(l) ==> language_by_extension(ext@) == Some(l@),
        r is None ==> language_by_extension(ext@) is None,
{
    if chars_equal(ext, "c") {
        return Some("C");
    }
    if chars_equal(ext, "cc") {
        return Some("C++");
    }
    if chars_equal(ext, "cjs") {
        return Some("JavaScript");
    }
    if chars_equal(ext, "cpp") {
        return Some("C++");
    }
    if chars_equal(ext, "cs") {
        return Some("C#");
    }
    if chars_equal(ext, "css") {
        return Some("CSS");
    }
    if chars_equal(ext, "cxx") {
        return Some("C++");
    }
    if chars_equal(ext, "dart") {
        return Some("Dart");
    }
    if chars_equal(ext, "ex") {
        return Some("Elixir");
    }
    if chars_equal(ext, "exs") {
        return Some("Elixir");
    }
    if chars_equal(ext, "gn") {
        return Some("GN");
    }
    if chars_equal(ext, "gni") {
        return Some("GN");
    }
    if chars_equal(ext, "go") {
        return Some("Go");
    }
    if chars_equal(ext, "h") {
        return Some("C");
    }
    if chars_equal(ext, "hh") {
        return Some("C++");
    }
    if chars_equal(ext, "hpp") {
        return Some("C++");
    }
    if chars_equal(ext, "hs") {
        return Some("Haskell");
    }
    if chars_equal(ext, "html") {
        return Some("HTML");
    }
    if chars_equal(ext, "java") {
        return Some("Java");
    }
    if chars_equal(ext, "js") {
        return Some("JavaScript");
    }
    if chars_equal(ext, "json") {
        return Some("JSON");
    }
    if chars_equal(ext, "jsx") {
        return Some("JavaScript");
    }
    if chars_equal(ext, "kt") {
        return Some("Kotlin");
    }
    if chars_equal(ext, "lua") {
        return Some("Lua");
    }
    if chars_equal(ext, "m") {
        return Some("Objective-C");
    }
    if chars_equal(ext, "md") {
        return Some("Markdown");
    }
    if chars_equal(ext, "mjs") {
        return Some("JavaScript");
    }
    if chars_equal(ext, "mm") {
        return Some("Objective-C++");
    }
    if chars_equal(ext, "mts") {
        return Some("TypeScript");
    }
    if chars_equal(ext, "php") {
        return Some("PHP");
    }
    if chars_equal(ext, "prisma") {
        return Some("Prisma");
    }
    if chars_equal(ext, "proto") {
        return Some("Protocol Buffer");
    }
    if chars_equal(ext, "py") {
        return Some("Python");
    }
    if chars_equal(ext, "rb") {
        return Some("Ruby");
    }
    if chars_equal(ext, "rs") {
        return Some("Rust");
    }
    if chars_equal(ext, "scala") {
        return Some("Scala");
    }
    if chars_equal(ext, "scss") {
        return Some("SCSS");
    }
    if chars_equal(ext, "sh") {
        return Some("Shell");
    }
    if chars_equal(ext, "sql") {
        return Some("SQL");
    }
    if chars_equal(ext, "swift") {
        return Some("Swift");
    }
    if chars_equal(ext, "toml") {
        return Some("TOML");
    }
    if chars_equal(ext, "ts") {
        return Some("TypeScript");
    }
    if chars_equal(ext, "tsx") {
        return Some("TypeScript");
    }
    if chars_equal(ext, "vue") {
        return Some("Vue");
    }
    if chars_equal(ext, "wgsl") {
        return Some("WGSL");
    }
    if chars_equal(ext, "xml") {
        return Some("XML");
    }
    if chars_equal(ext, "yaml") {
        return Some("YAML");
    }
    if chars_equal(ext, "yml") {
        return Some("YAML");
    }
    if chars_equal(ext, "zig") {
        return Some("Zig");
    }
    None
}

/// ASCII letters lowercased, everything else kept, as `str::to_ascii_lowercase` does.
pub open spec fn ascii_lower_char(c: char) -> char {
    if 'A' <= c <= 'Z' {
        ((c as u32) + 32) as char
    } else {
        c
    }
}

pub open spec fn ascii_lower(s: Seq<char>) -> Seq<char> {
    s.map_values(|c: char| ascii_lower_char(c))
}

fn lower_chars(cs: &Vec<char>) -> (r: Vec<char>)
    ensures
        r@ == ascii_lower(cs@),
{
    let mut out: Vec<char> = Vec::new();
    let mut i: usize = 0;
    while i < cs.len()
        invariant
            i <= cs@.len(),
            out@ == ascii_lower(cs@.take(i as int)),
        decreases cs.len() - i,
    {
        let c = cs[i];
        let l = if 'A' <= c && c <= 'Z' {
            let v: u32 = (c as u32) + 32;
            assert(v <= 0x7a);
            char_of(v)
        } else {
            c
        };
        out.push(l);
        i = i + 1;
        assert(ascii_lower(cs@.take(i as int)) =~= ascii_lower(cs@.take(i - 1)).push(ascii_lower_char(c)));
    }
    assert(cs@.take(cs@.len() as int) =~= cs@);
    out
}

fn char_of(v: u32) -> (c: char)
    requires
        0x61 <= v <= 0x7a,
    ensures
        c == v as char,
{
    let b: u8 = v as u8;
    b as char
}

/// The language for a file with name `file_name` and extension `extension`: the exact-name
/// table wins, then the lowercased extension, else [`UNKNOWN`].
pub open spec fn language_of(file_name: Option<Seq<char>>, extension: Option<Seq<char>>) -> Seq<char> {
    if file_name is Some && language_by_name(file_name->0) is Some {
        language_by_name(file_name->0)->0
    } else {
        match extension {
            None => "Other"@,
            Some(e) => match language_by_extension(ascii_lower(e)) {
                Some(l) => l,
                None => "Other"@,
            },
        }
    }
}

/// The language for a file whose name and extension are already split off its path.
pub fn language_for(file_name: Option<&str>, extension: Option<&str>) -> (r: &'static str)
    ensures
        r@ == language_of(
            match file_name { Some(n) => Some(n@), None => None },
            match extension { Some(e) => Some(e@), None => None },
        ),
{
    if let Some(name) = file_name {
        let cs = chars_of(name);
        if let Some(lang) = name_language(&cs) {
            return lang;
        }
    }
    match extension {
        None => UNKNOWN,
        Some(e) => {
            let lower = lower_chars(&chars_of(e));
            match extension_language(&lower) {
                Some(lang) => lang,
                None => UNKNOWN,
            }
        },
    }
}

/// The language of the file at `path`, from its name alone.
pub fn detect(path: &str) -> (r: &'static str)
    ensures
        r@ == language_of(path_file_name(path@), path_extension(path@)),
{
    let name = file_name_of(path);
    let extension = match name {
        Some(n) => extension_of_name(n),
        None => None,
    };
    match &extension {
        Some(e) => language_for(name, Some(e.as_str())),
        None => language_for(name, None),
    }
}

/// The extension of a file name, in ASCII lowercase.
pub open spec fn lower_extension(name: Seq<char>) -> Option<Seq<char>> {
    match name_extension(name) {
        Some(e) => Some(ascii_lower(e)),
        None => None,
    }
}

/// Law: a file with an exact known name gets that name's language, whatever its extension.
pub proof fn law_exact_name_wins(path: Seq<char>, name: Seq<char>)
    requires
        path_file_name(path) == Some(name),
        language_by_name(name) is Some,
    ensures
        language_of(path_file_name(path), path_extension(path)) == language_by_name(name)->0,
{
}

/// Law: two paths whose file names are not exact known names, and whose extensions agree but
/// for ASCII case, are detected as the same language, wherever they stand.
pub proof fn law_extension_case_ignored(p: Seq<char>, q: Seq<char>, n1: Seq<char>, n2: Seq<char>)
    requires
        path_file_name(p) == Some(n1),
        path_file_name(q) == Some(n2),
        language_by_name(n1) is None,
        language_by_name(n2) is None,
        lower_extension(n1) == lower_extension(n2),
    ensures
        language_of(path_file_name(p), path_extension(p)) == language_of(path_file_name(q), path_extension(q)),
{
}

/// A file with extension `ext` whose name is not an exact known name is detected as `lang`.
pub open spec fn extension_detects(ext: Seq<char>, lang: Seq<char>) -> bool {
    forall|name: Option<Seq<char>>| (name is None || language_by_name(name->0) is None) ==> #[trigger] language_of(
        name,
        Some(ext),
    ) == lang
}

/// A file named `name` is detected as `lang`, whatever its extension.
pub open spec fn name_detects(name: Seq<char>, lang: Seq<char>) -> bool {
    forall|ext: Option<Seq<char>>| #[trigger] language_of(Some(name), ext) == lang
}

/// A lowercase table entry detects its language.
proof fn lemma_extension_entry(ext: Seq<char>, lang: Seq<char>)
    requires
        language_by_extension(ext) == Some(lang),
        forall|i: int| 0 <= i < ext.len() ==> !('A' <= #[trigger] ext[i] <= 'Z'),
    ensures
        extension_detects(ext, lang),
{
    assert(ascii_lower(ext) =~= ext);
}

/// Law: each extension of the detection table gives its language, for any file whose name is
/// not an exact known name.
#[verifier::rlimit(100)]
pub proof fn law_extension_table()
    ensures
        extension_detects("c"@, "C"@),
        extension_detects("cc"@, "C++"@),
        extension_detects("cjs"@, "JavaScript"@),
        extension_detects("cpp"@, "C++"@),
        extension_detects("cs"@, "C#"@),
        extension_detects("css"@, "CSS"@),
        extension_detects("cxx"@, "C++"@),
        extension_detects("dart"@, "Dart"@),
        extension_detects("ex"@, "Elixir"@),
        extension_detects("exs"@, "Elixir"@),
        extension_detects("gn"@, "GN"@),
        extension_detects("gni"@, "GN"@),
        extension_detects("go"@, "Go"@),
        extension_detects("h"@, "C"@),
        extension_detects("hh"@, "C++"@),
        extension_detects("hpp"@, "C++"@),
        extension_detects("hs"@, "Haskell"@),
        extension_detects("html"@, "HTML"@),
        extension_detects("java"@, "Java"@),
        extension_detects("js"@, "JavaScript"@),
        extension_detects("json"@, "JSON"@),
        extension_detects("jsx"@, "JavaScript"@),
        extension_detects("kt"@, "Kotlin"@),
        extension_detects("lua"@, "Lua"@),
        extension_detects("m"@, "Objective-C"@),
        extension_detects("md"@, "Markdown"@),
        extension_detects("mjs"@, "JavaScript"@),
        extension_detects("mm"@, "Objective-C++"@),
        extension_detects("mts"@, "TypeScript"@),
        extension_detects("php"@, "PHP"@),
        extension_detects("prisma"@, "Prisma"@),
        extension_detects("proto"@, "Protocol Buffer"@),
        extension_detects("py"@, "Python"@),
        extension_detects("rb"@, "Ruby"@),
        extension_detects("rs"@, "Rust"@),
        extension_detects("scala"@, "Scala"@),
        extension_detects("scss"@, "SCSS"@),
        extension_detects("sh"@, "Shell"@),
        extension_detects("sql"@, "SQL"@),
        extension_detects("swift"@, "Swift"@),
        extension_detects("toml"@, "TOML"@),
        extension_detects("ts"@, "TypeScript"@),
        extension_detects("tsx"@, "TypeScript"@),
        extension_detects("vue"@, "Vue"@),
        extension_detects("wgsl"@, "WGSL"@),
        extension_detects("xml"@, "XML"@),
        extension_detects("yaml"@, "YAML"@),
        extension_detects("yml"@, "YAML"@),
        extension_detects("zig"@, "Zig"@),
{
    reveal_strlit("c");
    assert("c"@.len() == 1);
    assert("c"@[0] == 'c');
    reveal_strlit("cc");
    assert("cc"@.len() == 2);
    assert("cc"@[0] == 'c');
    assert("cc"@[1] == 'c');
    reveal_strlit("cjs");
    assert("cjs"@.len() == 3);
    assert("cjs"@[0] == 'c');
    assert("cjs"@[1] == 'j');
    assert("cjs"@[2] == 's');
    reveal_strlit("cpp");
    assert("cpp"@.len() == 3);
    assert("cpp"@[0] == 'c');
    assert("cpp"@[1] == 'p');
    assert("cpp"@[2] == 'p');
    reveal_strlit("cs");
    assert("cs"@.len() == 2);
    assert("cs"@[0] == 'c');
    assert("cs"@[1] == 's');
    reveal_strlit("css");
    assert("css"@.len() == 3);
    assert("css"@[0] == 'c');
    assert("css"@[1] == 's');
    assert("css"@[2] == 's');
    reveal_strlit("cxx");
    assert("cxx"@.len() == 3);
    assert("cxx"@[0] == 'c');
    assert("cxx"@[1] == 'x');
    assert("cxx"@[2] == 'x');
    reveal_strlit("dart");
    assert("dart"@.len() == 4);
    assert("dart"@[0] == 'd');
    assert("dart"@[1] == 'a');
    assert("dart"@[2] == 'r');
    assert("dart"@[3] == 't');
    reveal_strlit("ex");
    assert("ex"@.len() == 2);
    assert("ex"@[0] == 'e');
    assert("ex"@[1] == 'x');
    reveal_strlit("exs");
    assert("exs"@.len() == 3);
    assert("exs"@[0] == 'e');
    assert("exs"@[1] == 'x');
    assert("exs"@[2] == 's');
    reveal_strlit("gn");
    assert("gn"@.len() == 2);
    assert("gn"@[0] == 'g');
    assert("gn"@[1] == 'n');
    reveal_strlit("gni");
    assert("gni"@.len() == 3);
    assert("gni"@[0] == 'g');
    assert("gni"@[1] == 'n');
    assert("gni"@[2] == 'i');
    reveal_strlit("go");
    assert("go"@.len() == 2);
    assert("go"@[0] == 'g');
    assert("go"@[1] == 'o');
    reveal_strlit("h");
    assert("h"@.len() == 1);
    assert("h"@[0] == 'h');
    reveal_strlit("hh");
    assert("hh"@.len() == 2);
    assert("hh"@[0] == 'h');
    assert("hh"@[1] == 'h');
    reveal_strlit("hpp");
    assert("hpp"@.len() == 3);
    assert("hpp"@[0] == 'h');
    assert("hpp"@[1] == 'p');
    assert("hpp"@[2] == 'p');
    reveal_strlit("hs");
    assert("hs"@.len() == 2);
    assert("hs"@[0] == 'h');
    assert("hs"@[1] == 's');
    reveal_strlit("html");
    assert("html"@.len() == 4);
    assert("html"@[0] == 'h');
    assert("html"@[1] == 't');
    assert("html"@[2] == 'm');
    assert("html"@[3] == 'l');
    reveal_strlit("java");
    assert("java"@.len() == 4);
    assert("java"@[0] == 'j');
    assert("java"@[1] == 'a');
    assert("java"@[2] == 'v');
    assert("java"@[3] == 'a');
    reveal_strlit("js");
    assert("js"@.len() == 2);
    assert("js"@[0] == 'j');
    assert("js"@[1] == 's');
    reveal_strlit("json");
    assert("json"@.len() == 4);
    assert("json"@[0] == 'j');
    assert("json"@[1] == 's');
    assert("json"@[2] == 'o');
    assert("json"@[3] == 'n');
    reveal_strlit("jsx");
    assert("jsx"@.len() == 3);
    assert("jsx"@[0] == 'j');
    assert("jsx"@[1] == 's');
    assert("jsx"@[2] == 'x');
    reveal_strlit("kt");
    assert("kt"@.len() == 2);
    assert("kt"@[0] == 'k');
    assert("kt"@[1] == 't');
    reveal_strlit("lua");
    assert("lua"@.len() == 3);
    assert("lua"@[0] == 'l');
    assert("lua"@[1] == 'u');
    assert("lua"@[2] == 'a');
    reveal_strlit("m");
    assert("m"@.len() == 1);
    assert("m"@[0] == 'm');
    reveal_strlit("md");
    assert("md"@.len() == 2);
    assert("md"@[0] == 'm');
    assert("md"@[1] == 'd');
    reveal_strlit("mjs");
    assert("mjs"@.len() == 3);
    assert("mjs"@[0] == 'm');
    assert("mjs"@[1] == 'j');
    assert("mjs"@[2] == 's');
    reveal_strlit("mm");
    assert("mm"@.len() == 2);
    assert("mm"@[0] == 'm');
    assert("mm"@[1] == 'm');
    reveal_strlit("mts");
    assert("mts"@.len() == 3);
    assert("mts"@[0] == 'm');
    assert("mts"@[1] == 't');
    assert("mts"@[2] == 's');
    reveal_strlit("php");
    assert("php"@.len() == 3);
    assert("php"@[0] == 'p');
    assert("php"@[1] == 'h');
    assert("php"@[2] == 'p');
    reveal_strlit("prisma");
    assert("prisma"@.len() == 6);
    assert("prisma"@[0] == 'p');
    assert("prisma"@[1] == 'r');
    assert("prisma"@[2] == 'i');
    assert("prisma"@[3] == 's');
    assert("prisma"@[4] == 'm');
    assert("prisma"@[5] == 'a');
    reveal_strlit("proto");
    assert("proto"@.len() == 5);
    assert("proto"@[0] == 'p');
    assert("proto"@[1] == 'r');
    assert("proto"@[2] == 'o');
    assert("proto"@[3] == 't');
    assert("proto"@[4] == 'o');
    reveal_strlit("py");
    assert("py"@.len() == 2);
    assert("py"@[0] == 'p');
    assert("py"@[1] == 'y');
    reveal_strlit("rb");
    assert("rb"@.len() == 2);
    assert("rb"@[0] == 'r');
    assert("rb"@[1] == 'b');
    reveal_strlit("rs");
    assert("rs"@.len() == 2);
    assert("rs"@[0] == 'r');
    assert("rs"@[1] == 's');
    reveal_strlit("scala");
    assert("scala"@.len() == 5);
    assert("scala"@[0] == 's');
    assert("scala"@[1] == 'c');
    assert("scala"@[2] == 'a');
    assert("scala"@[3] == 'l');
    assert("scala"@[4] == 'a');
    reveal_strlit("scss");
    assert("scss"@.len() == 4);
    assert("scss"@[0] == 's');
    assert("scss"@[1] == 'c');
    assert("scss"@[2] == 's');
    assert("scss"@[3] == 's');
    reveal_strlit("sh");
    assert("sh"@.len() == 2);
    assert("sh"@[0] == 's');
    assert("sh"@[1] == 'h');
    reveal_strlit("sql");
    assert("sql"@.len() == 3);
    assert("sql"@[0] == 's');
    assert("sql"@[1] == 'q');
    assert("sql"@[2] == 'l');
    reveal_strlit("swift");
    assert("swift"@.len() == 5);
    assert("swift"@[0] == 's');
    assert("swift"@[1] == 'w');
    assert("swift"@[2] == 'i');
    assert("swift"@[3] == 'f');
    assert("swift"@[4] == 't');
    reveal_strlit("toml");
    assert("toml"@.len() == 4);
    assert("toml"@[0] == 't');
    assert("toml"@[1] == 'o');
    assert("toml"@[2] == 'm');
    assert("toml"@[3] == 'l');
    reveal_strlit("ts");
    assert("ts"@.len() == 2);
    assert("ts"@[0] == 't');
    assert("ts"@[1] == 's');
    reveal_strlit("tsx");
    assert("tsx"@.len() == 3);
    assert("tsx"@[0] == 't');
    assert("tsx"@[1] == 's');
    assert("tsx"@[2] == 'x');
    reveal_strlit("vue");
    assert("vue"@.len() == 3);
    assert("vue"@[0] == 'v');
    assert("vue"@[1] == 'u');
    assert("vue"@[2] == 'e');
    reveal_strlit("wgsl");
    assert("wgsl"@.len() == 4);
    assert("wgsl"@[0] == 'w');
    assert("wgsl"@[1] == 'g');
    assert("wgsl"@[2] == 's');
    assert("wgsl"@[3] == 'l');
    reveal_strlit("xml");
    assert("xml"@.len() == 3);
    assert("xml"@[0] == 'x');
    assert("xml"@[1] == 'm');
    assert("xml"@[2] == 'l');
    reveal_strlit("yaml");
    assert("yaml"@.len() == 4);
    assert("yaml"@[0] == 'y');
    assert("yaml"@[1] == 'a');
    assert("yaml"@[2] == 'm');
    assert("yaml"@[3] == 'l');
    reveal_strlit("yml");
    assert("yml"@.len() == 3);
    assert("yml"@[0] == 'y');
    assert("yml"@[1] == 'm');
    assert("yml"@[2] == 'l');
    reveal_strlit("zig");
    assert("zig"@.len() == 3);
    assert("zig"@[0] == 'z');
    assert("zig"@[1] == 'i');
    assert("zig"@[2] == 'g');
    lemma_extension_entry("c"@, "C"@);
    lemma_extension_entry("cc"@, "C++"@);
    lemma_extension_entry("cjs"@, "JavaScript"@);
    lemma_extension_entry("cpp"@, "C++"@);
    lemma_extension_entry("cs"@, "C#"@);
    lemma_extension_entry("css"@, "CSS"@);
    lemma_extension_entry("cxx"@, "C++"@);
    lemma_extension_entry("dart"@, "Dart"@);
    lemma_extension_entry("ex"@, "Elixir"@);
    lemma_extension_entry("exs"@, "Elixir"@);
    lemma_extension_entry("gn"@, "GN"@);
    lemma_extension_entry("gni"@, "GN"@);
    lemma_extension_entry("go"@, "Go"@);
    lemma_extension_entry("h"@, "C"@);
    lemma_extension_entry("hh"@, "C++"@);
    lemma_extension_entry("hpp"@, "C++"@);
    lemma_extension_entry("hs"@, "Haskell"@);
    lemma_extension_entry("html"@, "HTML"@);
    lemma_extension_entry("java"@, "Java"@);
    lemma_extension_entry("js"@, "JavaScript"@);
    lemma_extension_entry("json"@, "JSON"@);
    lemma_extension_entry("jsx"@, "JavaScript"@);
    lemma_extension_entry("kt"@, "Kotlin"@);
    lemma_extension_entry("lua"@, "Lua"@);
    lemma_extension_entry("m"@, "Objective-C"@);
    lemma_extension_entry("md"@, "Markdown"@);
    lemma_extension_entry("mjs"@, "JavaScript"@);
    lemma_extension_entry("mm"@, "Objective-C++"@);
    lemma_extension_entry("mts"@, "TypeScript"@);
    lemma_extension_entry("php"@, "PHP"@);
    lemma_extension_entry("prisma"@, "Prisma"@);
    lemma_extension_entry("proto"@, "Protocol Buffer"@);
    lemma_extension_entry("py"@, "Python"@);
    lemma_extension_entry("rb"@, "Ruby"@);
    lemma_extension_entry("rs"@, "Rust"@);
    lemma_extension_entry("scala"@, "Scala"@);
    lemma_extension_entry("scss"@, "SCSS"@);
    lemma_extension_entry("sh"@, "Shell"@);
    lemma_extension_entry("sql"@, "SQL"@);
    lemma_extension_entry("swift"@, "Swift"@);
    lemma_extension_entry("toml"@, "TOML"@);
    lemma_extension_entry("ts"@, "TypeScript"@);
    lemma_extension_entry("tsx"@, "TypeScript"@);
    lemma_extension_entry("vue"@, "Vue"@);
    lemma_extension_entry("wgsl"@, "WGSL"@);
    lemma_extension_entry("xml"@, "XML"@);
    lemma_extension_entry("yaml"@, "YAML"@);
    lemma_extension_entry("yml"@, "YAML"@);
    lemma_extension_entry("zig"@, "Zig"@);
}

/// Law: each exact file name of the detection table gives its language, whatever the extension.
pub proof fn law_name_table()
    ensures
        name_detects("BUILD"@, "Starlark"@),
        name_detects("BUILD.bazel"@, "Starlark"@),
        name_detects("BUILD.gn"@, "GN"@),
        name_detects("CMakeLists.txt"@, "CMake"@),
        name_detects("Dockerfile"@, "Dockerfile"@),
        name_detects("Makefile"@, "Makefile"@),
        name_detects("WORKSPACE"@, "Starlark"@),
{
    reveal_strlit("BUILD");
    assert("BUILD"@.len() == 5);
    assert("BUILD"@[0] == 'B');
    assert("BUILD"@[1] == 'U');
    assert("BUILD"@[2] == 'I');
    assert("BUILD"@[3] == 'L');
    assert("BUILD"@[4] == 'D');
    reveal_strlit("BUILD.bazel");
    assert("BUILD.bazel"@.len() == 11);
    assert("BUILD.bazel"@[0] == 'B');
    assert("BUILD.bazel"@[1] == 'U');
    assert("BUILD.bazel"@[2] == 'I');
    assert("BUILD.bazel"@[3] == 'L');
    assert("BUILD.bazel"@[4] == 'D');
    assert("BUILD.bazel"@[5] == '.');
    assert("BUILD.bazel"@[6] == 'b');
    assert("BUILD.bazel"@[7] == 'a');
    assert("BUILD.bazel"@[8] == 'z');
    assert("BUILD.bazel"@[9] == 'e');
    assert("BUILD.bazel"@[10] == 'l');
    reveal_strlit("BUILD.gn");
    assert("BUILD.gn"@.len() == 8);
    assert("BUILD.gn"@[0] == 'B');
    assert("BUILD.gn"@[1] == 'U');
    assert("BUILD.gn"@[2] == 'I');
    assert("BUILD.gn"@[3] == 'L');
    assert("BUILD.gn"@[4] == 'D');
    assert("BUILD.gn"@[5] == '.');
    assert("BUILD.gn"@[6] == 'g');
    assert("BUILD.gn"@[7] == 'n');
    reveal_strlit("CMakeLists.txt");
    assert("CMakeLists.txt"@.len() == 14);
    assert("CMakeLists.txt"@[0] == 'C');
    assert("CMakeLists.txt"@[1] == 'M');
    assert("CMakeLists.txt"@[2] == 'a');
    assert("CMakeLists.txt"@[3] == 'k');
    assert("CMakeLists.txt"@[4] == 'e');
    assert("CMakeLists.txt"@[5] == 'L');
    assert("CMakeLists.txt"@[6] == 'i');
    assert("CMakeLists.txt"@[7] == 's');
    assert("CMakeLists.txt"@[8] == 't');
    assert("CMakeLists.txt"@[9] == 's');
    assert("CMakeLists.txt"@[10] == '.');
    assert("CMakeLists.txt"@[11] == 't');
    assert("CMakeLists.txt"@[12] == 'x');
    assert("CMakeLists.txt"@[13] == 't');
    reveal_strlit("Dockerfile");
    assert("Dockerfile"@.len() == 10);
    assert("Dockerfile"@[0] == 'D');
    assert("Dockerfile"@[1] == 'o');
    assert("Dockerfile"@[2] == 'c');
    assert("Dockerfile"@[3] == 'k');
    assert("Dockerfile"@[4] == 'e');
    assert("Dockerfile"@[5] == 'r');
    assert("Dockerfile"@[6] == 'f');
    assert("Dockerfile"@[7] == 'i');
    assert("Dockerfile"@[8] == 'l');
    assert("Dockerfile"@[9] == 'e');
    reveal_strlit("Makefile");
    assert("Makefile"@.len() == 8);
    assert("Makefile"@[0] == 'M');
    assert("Makefile"@[1] == 'a');
    assert("Makefile"@[2] == 'k');
    assert("Makefile"@[3] == 'e');
    assert("Makefile"@[4] == 'f');
    assert("Makefile"@[5] == 'i');
    assert("Makefile"@[6] == 'l');
    assert("Makefile"@[7] == 'e');
    reveal_strlit("WORKSPACE");
    assert("WORKSPACE"@.len() == 9);
    assert("WORKSPACE"@[0] == 'W');
    assert("WORKSPACE"@[1] == 'O');
    assert("WORKSPACE"@[2] == 'R');
    assert("WORKSPACE"@[3] == 'K');
    assert("WORKSPACE"@[4] == 'S');
    assert("WORKSPACE"@[5] == 'P');
    assert("WORKSPACE"@[6] == 'A');
    assert("WORKSPACE"@[7] == 'C');
    assert("WORKSPACE"@[8] == 'E');
}

} // verus!

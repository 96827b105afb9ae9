//! The built-in exclusion list for vendored and generated code: lockfiles, minified JavaScript,
//! files whose header marks them as generated, and the vendored directories `node_modules`,
//! `vendor`, `dist` and `third_party`. Excluded paths are recorded with their reason rather than
//! silently dropped.

use vstd::prelude::*;
use crate::strings::{chars_of, str_equal};
use crate::tokens::{ends_with_text, has_suffix};

verus! {

/// Why a path was left out of the index.
#[derive(Debug, Clone, Copy, PartialEq, Eq, Structural)]
pub enum Reason {
    Lockfile,
    Minified,
    Generated,
    NodeModules,
    Vendor,
    Dist,
    ThirdParty,
}

/// The text a reason is recorded as.
pub open spec fn reason_text(r: Reason) -> Seq<char> {
    match r {
        Reason::Lockfile => "lockfile"@,
        Reason::Minified => "minified"@,
        Reason::Generated => "generated"@,
        Reason::NodeModules => "node_modules"@,
        Reason::Vendor => "vendor"@,
        Reason::Dist => "dist"@,
        Reason::ThirdParty => "third_party"@,
    }
}

impl Reason {
    /// The text this reason is recorded as.
    pub fn as_str(&self) -> (r: &'static str)
        ensures
            r@ == reason_text(*self),
    {
        match self {
            Reason::Lockfile => "lockfile",
            Reason::Minified => "minified",
            Reason::Generated => "generated",
            Reason::NodeModules => "node_modules",
            Reason::Vendor => "vendor",
            Reason::Dist => "dist",
            Reason::ThirdParty => "third_party",
        }
    }
}

/// The lockfiles of the common package managers.
pub open spec fn is_lockfile(name: Seq<char>) -> bool {
    name == "package-lock.json"@ || name == "yarn.lock"@ || name == "pnpm-lock.yaml"@ || name
        == "npm-shrinkwrap.json"@ || name == "Cargo.lock"@ || name == "Gemfile.lock"@ || name
        == "composer.lock"@ || name == "poetry.lock"@ || name == "Pipfile.lock"@ || name == "go.sum"@
}

/// Why a file named `name` is excluded: a lockfile, or minified JavaScript (`*.min.js`).
pub open spec fn name_exclusion(name: Seq<char>) -> Option<Reason> {
    if is_lockfile(name) {
        Some(Reason::Lockfile)
    } else if has_suffix(name, ".min.js"@) {
        Some(Reason::Minified)
    } else {
        None
    }
}

/// Why a directory named `name` is pruned, with everything under it.
pub open spec fn dir_exclusion(name: Seq<char>) -> Option<Reason> {
    if name == "node_modules"@ {
        Some(Reason::NodeModules)
    } else if name == "vendor"@ {
        Some(Reason::Vendor)
    } else if name == "dist"@ {
        Some(Reason::Dist)
    } else if name == "third_party"@ {
        Some(Reason::ThirdParty)
    } else {
        None
    }
}

/// The bytes of `@generated`.
pub open spec fn generated_marker() -> Seq<u8> {
    seq![64u8, 103u8, 101u8, 110u8, 101u8, 114u8, 97u8, 116u8, 101u8, 100u8]
}

/// The bytes of `DO NOT EDIT`.
pub open spec fn do_not_edit_marker() -> Seq<u8> {
    seq![68u8, 79u8, 32u8, 78u8, 79u8, 84u8, 32u8, 69u8, 68u8, 73u8, 84u8]
}

/// Whether `needle` occurs in `hay`.
pub open spec fn has_bytes(hay: Seq<u8>, needle: Seq<u8>) -> bool {
    exists|i: int| 0 <= i && i + needle.len() <= hay.len() && #[trigger] hay.subrange(i, i + needle.len()) == needle
}

/// Whether a file's leading bytes mark it as generated code: they hold `@generated` or
/// `DO NOT EDIT`.
pub open spec fn generated_header(sniff: Seq<u8>) -> bool {
    has_bytes(sniff, generated_marker()) || has_bytes(sniff, do_not_edit_marker())
}

fn bytes_at(hay: &[u8], i: usize, needle: &[u8]) -> (r: bool)
    requires
        i + needle@.len() <= hay@.len(),
    ensures
        r == (hay@.subrange(i as int, i + needle@.len()) == needle@),
{
    let hl = hay.len();
    let mut k: usize = 0;
    while k < needle.len()
        invariant
            k <= needle@.len(),
            hl == hay@.len(),
            i + needle@.len() <= hay@.len(),
            forall|j: int| 0 <= j < k ==> hay@[i + j] == needle@[j],
        decreases needle.len() - k,
    {
        if hay[i + k] != needle[k] {
            assert(hay@.subrange(i as int, i + needle@.len())[k as int] != needle@[k as int]);
            return false;
        }
        k = k + 1;
    }
    assert(hay@.subrange(i as int, i + needle@.len()) =~= needle@);
    true
}

fn contains_bytes(hay: &[u8], needle: &[u8]) -> (r: bool)
    requires
        needle@.len() >= 1,
    ensures
        r == has_bytes(hay@, needle@),
{
    if needle.len() > hay.len() {
        return false;
    }
    let hl = hay.len();
    let last = hl - needle.len();
    let mut i: usize = 0;
    while i <= last
        invariant
            hl == hay@.len(),
            last + needle@.len() == hay@.len(),
            needle@.len() >= 1,
            forall|j: int| 0 <= j < i ==> #[trigger] hay@.subrange(j, j + needle@.len()) != needle@,
        decreases last + 1 - i,
    {
        if bytes_at(hay, i, needle) {
            return true;
        }
        i = i + 1;
    }
    false
}

/// Why a file named `file_name` is excluded, if it is.
pub fn excluded_by_name(file_name: &str) -> (r: Option<Reason>)
    ensures
        r == name_exclusion(file_name@),
{
    if str_equal(file_name, "package-lock.json") || str_equal(file_name, "yarn.lock") || str_equal(
        file_name,
        "pnpm-lock.yaml",
    ) || str_equal(file_name, "npm-shrinkwrap.json") || str_equal(file_name, "Cargo.lock") || str_equal(
        file_name,
        "Gemfile.lock",
    ) || str_equal(file_name, "composer.lock") || str_equal(file_name, "poetry.lock") || str_equal(
        file_name,
        "Pipfile.lock",
    ) || str_equal(file_name, "go.sum") {
        return Some(Reason::Lockfile);
    }
    let cs = chars_of(file_name);
    if ends_with_text(&cs, ".min.js") {
        Some(Reason::Minified)
    } else {
        None
    }
}

/// Why a directory named `name` is pruned, if it is.
pub fn excluded_dir(name: &str) -> (r: Option<Reason>)
    ensures
        r == dir_exclusion(name@),
{
    if str_equal(name, "node_modules") {
        Some(Reason::NodeModules)
    } else if str_equal(name, "vendor") {
        Some(Reason::Vendor)
    } else if str_equal(name, "dist") {
        Some(Reason::Dist)
    } else if str_equal(name, "third_party") {
        Some(Reason::ThirdParty)
    } else {
        None
    }
}

/// [`Reason::Generated`] if a file's leading bytes mark it as generated code.
pub fn excluded_by_header(sniff: &[u8]) -> (r: Option<Reason>)
    ensures
        r == (if generated_header(sniff@) { Some(Reason::Generated) } else { None }),
{
    let generated: [u8; 10] = [64, 103, 101, 110, 101, 114, 97, 116, 101, 100];
    let do_not_edit: [u8; 11] = [68, 79, 32, 78, 79, 84, 32, 69, 68, 73, 84];
    assert(generated@ =~= generated_marker());
    assert(do_not_edit@ =~= do_not_edit_marker());
    if contains_bytes(sniff, generated.as_slice()) || contains_bytes(sniff, do_not_edit.as_slice()) {
        Some(Reason::Generated)
    } else {
        None
    }
}

/// Law: the lockfile of each common package manager is left out as a lockfile, whatever else
/// the name rules say.
pub proof fn law_lockfiles_are_excluded()
    ensures
        name_exclusion("package-lock.json"@) == Some(Reason::Lockfile),
        name_exclusion("yarn.lock"@) == Some(Reason::Lockfile),
        name_exclusion("pnpm-lock.yaml"@) == Some(Reason::Lockfile),
        name_exclusion("npm-shrinkwrap.json"@) == Some(Reason::Lockfile),
        name_exclusion("Cargo.lock"@) == Some(Reason::Lockfile),
        name_exclusion("Gemfile.lock"@) == Some(Reason::Lockfile),
        name_exclusion("composer.lock"@) == Some(Reason::Lockfile),
        name_exclusion("poetry.lock"@) == Some(Reason::Lockfile),
        name_exclusion("Pipfile.lock"@) == Some(Reason::Lockfile),
        name_exclusion("go.sum"@) == Some(Reason::Lockfile),
{
}

/// Law: a file name that ends in `.min.js` is left out, as minified unless it is a lockfile.
pub proof fn law_minified_js_is_excluded(name: Seq<char>, stem: Seq<char>)
    requires
        name == stem + ".min.js"@,
    ensures
        name_exclusion(name) is Some,
        name_exclusion(name) != Some(Reason::Lockfile) ==> name_exclusion(name) == Some(Reason::Minified),
{
    assert(name.subrange(name.len() - ".min.js"@.len(), name.len() as int) =~= ".min.js"@);
}

/// Law: the vendored and built directories are pruned, each with its own reason.
pub proof fn law_vendored_dirs_are_pruned()
    ensures
        dir_exclusion("node_modules"@) == Some(Reason::NodeModules),
        dir_exclusion("vendor"@) == Some(Reason::Vendor),
        dir_exclusion("dist"@) == Some(Reason::Dist),
        dir_exclusion("third_party"@) == Some(Reason::ThirdParty),
{
    reveal_strlit("node_modules");
    reveal_strlit("vendor");
    reveal_strlit("dist");
    reveal_strlit("third_party");
    assert("vendor"@.len() != "node_modules"@.len());
    assert("dist"@.len() != "node_modules"@.len());
    assert("dist"@.len() != "vendor"@.len());
}

} // verus!

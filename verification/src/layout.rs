//! What the layout stage reports and derives from the tree: the category list of the language
//! layer, the tile set's statistics, the rows of the path index, and the line range of the lines
//! layer.

use vstd::prelude::*;
use crate::manifest::Stats;
use crate::language::{file_name_of, parent_of, path_file_name, path_parent};
use crate::paths::{PathEntry, PathsIndex};
use crate::strings::str_equal;
use crate::tile::FeatureKind;
use crate::tree::{lex_lt, nodes_of_kind, text_less, FileRow, Node};

verus! {

/// What one layout run produced.
#[derive(Debug, Clone, Copy, PartialEq, Eq, Structural)]
pub struct Summary {
    pub files: u64,
    pub directories: u64,
    pub tiles: u64,
    pub text_tiles: u64,
    pub max_zoom: u8,
}

/// The names, strictly increasing.
pub open spec fn names_sorted(v: Seq<String>) -> bool {
    forall|i: int, j: int| 0 <= i < j < v.len() ==> lex_lt(#[trigger] v[i]@, #[trigger] v[j]@)
}

/// The texts of the names.
pub open spec fn name_set(v: Seq<String>) -> Set<Seq<char>> {
    Set::new(|l: Seq<char>| exists|i: int| 0 <= i < v.len() && #[trigger] v[i]@ == l)
}

/// Insert `name` into strictly sorted names unless it is there.
fn insert_name(v: &mut Vec<String>, name: &String)
    requires
        names_sorted(old(v)@),
    ensures
        names_sorted(final(v)@),
        name_set(final(v)@) == name_set(old(v)@).insert(name@),
{
    let ghost before = v@;
    let mut i: usize = 0;
    while i < v.len() && text_less(v[i].as_str(), name.as_str())
        invariant
            i <= v@.len(),
            v@ == before,
            names_sorted(before),
            forall|j: int| 0 <= j < i ==> lex_lt(#[trigger] before[j]@, name@),
        decreases v@.len() - i,
    {
        i = i + 1;
    }
    if i < v.len() && str_equal(v[i].as_str(), name.as_str()) {
        assert(name_set(before).insert(name@) =~= name_set(before)) by {
            assert(before[i as int]@ == name@);
        }
        return;
    }
    proof {
        if i < before.len() {
            crate::tree::lemma_lex_order(before[i as int]@, name@);
            assert(lex_lt(name@, before[i as int]@));
        }
    }
    v.insert(i, name.clone());
    let ghost after = v@;
    assert(after == before.insert(i as int, *name));
    assert forall|a: int, b: int| 0 <= a < b < after.len() implies lex_lt(#[trigger] after[a]@, #[trigger] after[b]@) by {
        if a < i && b == i {
        } else if a < i && b > i {
            assert(after[b] == before[b - 1]);
            if a < b - 1 {
                assert(lex_lt(before[a]@, before[b - 1]@));
            } else {
                crate::tree::lemma_lex_trans(before[a]@, name@, before[b - 1]@);
            }
            if i < b - 1 {
                crate::tree::lemma_lex_trans(name@, before[i as int]@, before[b - 1]@);
            }
            crate::tree::lemma_lex_trans(before[a]@, name@, before[b - 1]@);
        } else if a == i {
            assert(after[b] == before[b - 1]);
            if b - 1 > i {
                assert(lex_lt(before[i as int]@, before[b - 1]@));
                crate::tree::lemma_lex_trans(name@, before[i as int]@, before[b - 1]@);
            }
        } else if a > i {
            assert(after[a] == before[a - 1]);
            assert(after[b] == before[b - 1]);
        }
    }
    assert forall|l: Seq<char>| name_set(after).contains(l) == name_set(before).insert(name@).contains(l) by {
        if name_set(after).contains(l) {
            let j = choose|j: int| 0 <= j < after.len() && #[trigger] after[j]@ == l;
            if j < i {
                assert(before[j]@ == l);
            } else if j > i {
                assert(before[j - 1]@ == l);
            }
        }
        if name_set(before).contains(l) {
            let j = choose|j: int| 0 <= j < before.len() && #[trigger] before[j]@ == l;
            if j < i {
                assert(after[j]@ == l);
            } else {
                assert(after[j + 1]@ == l);
            }
        }
        if l == name@ {
            assert(after[i as int]@ == l);
        }
    }
    assert(name_set(after) =~= name_set(before).insert(name@));
}

/// The languages of the nodes below the root.
pub open spec fn node_languages(a: Seq<Node>) -> Set<Seq<char>> {
    Set::new(|l: Seq<char>| exists|k: int| 1 <= k < a.len() && #[trigger] a[k].language@ == l)
}

/// The categories of the language layer: every language of a node below the root, once, in
/// name order.
pub fn category_list(arena: &Vec<Node>) -> (r: Vec<String>)
    ensures
        names_sorted(r@),
        name_set(r@) == node_languages(arena@),
{
    let mut out: Vec<String> = Vec::new();
    let mut k: usize = 1;
    proof {
        assert(name_set(out@) =~= Set::<Seq<char>>::empty());
    }
    while k < arena.len()
        invariant
            1 <= k,
            k <= arena@.len() || k == 1,
            names_sorted(out@),
            name_set(out@) == Set::new(|l: Seq<char>| exists|j: int| 1 <= j < k && #[trigger] arena@[j].language@ == l),
        decreases arena.len() - k,
    {
        insert_name(&mut out, &arena[k].language);
        k = k + 1;
        assert(name_set(out@) =~= Set::new(|l: Seq<char>| exists|j: int| 1 <= j < k && #[trigger] arena@[j].language@ == l));
    }
    proof {
        if arena@.len() == 0 {
            assert(node_languages(arena@) =~= Set::<Seq<char>>::empty());
            assert forall|l: Seq<char>| !name_set(out@).contains(l) by {
                if name_set(out@).contains(l) {
                    let j = choose|j: int| 1 <= j < k && #[trigger] arena@[j].language@ == l;
                }
            }
            assert(name_set(out@) =~= node_languages(arena@));
        } else {
            assert(k == arena@.len());
            assert forall|l: Seq<char>| name_set(out@).contains(l) == node_languages(arena@).contains(l) by {
                if node_languages(arena@).contains(l) {
                    let j = choose|j: int| 1 <= j < arena@.len() && #[trigger] arena@[j].language@ == l;
                    assert(1 <= j < k && arena@[j].language@ == l);
                }
            }
            assert(name_set(out@) =~= node_languages(arena@));
        }
    }
    out
}

/// The lines of all files.
pub open spec fn total_lines(files: Seq<FileRow>) -> nat
    decreases files.len(),
{
    if files.len() == 0 { 0 } else { total_lines(files.drop_last()) + files.last().lines as nat }
}

/// The bytes of all files.
pub open spec fn total_bytes(files: Seq<FileRow>) -> nat
    decreases files.len(),
{
    if files.len() == 0 { 0 } else { total_bytes(files.drop_last()) + files.last().bytes as nat }
}

/// The languages of the files.
pub open spec fn file_languages(files: Seq<FileRow>) -> Set<Seq<char>> {
    Set::new(|l: Seq<char>| exists|i: int| 0 <= i < files.len() && #[trigger] files[i].language@ == l)
}

proof fn lemma_sorted_names_count(v: Seq<String>)
    requires
        names_sorted(v),
    ensures
        name_set(v).len() == v.len(),
        name_set(v).finite(),
{
    let views = v.map_values(|x: String| x@);
    assert forall|i: int, j: int| 0 <= i < views.len() && 0 <= j < views.len() && i != j implies views[i] != views[j] by {
        if i < j {
            assert(lex_lt(v[i]@, v[j]@));
        } else {
            assert(lex_lt(v[j]@, v[i]@));
        }
        crate::tree::lemma_lex_order(v[i]@, v[j]@);
    }
    views.unique_seq_to_set();
    assert(views.to_set() =~= name_set(v)) by {
        assert forall|l: Seq<char>| views.to_set().contains(l) == name_set(v).contains(l) by {
            if name_set(v).contains(l) {
                let i = choose|i: int| 0 <= i < v.len() && #[trigger] v[i]@ == l;
                assert(views[i] == l);
            }
            if views.to_set().contains(l) {
                let i = choose|i: int| 0 <= i < views.len() && views[i] == l;
                assert(v[i]@ == l);
            }
        }
    }
}

/// Totals over the whole tile set: the files and their lines and bytes, the directories of the
/// tree, and the number of distinct languages.
pub fn stats(arena: &Vec<Node>, files: &Vec<FileRow>) -> (r: Stats)
    requires
        total_lines(files@) <= u64::MAX,
        total_bytes(files@) <= u64::MAX,
    ensures
        r.files == files@.len(),
        r.directories == nodes_of_kind(arena@, FeatureKind::Dir).len(),
        r.lines == total_lines(files@),
        r.bytes == total_bytes(files@),
        r.languages == file_languages(files@).len() as u32,
{
    let mut directories: u64 = 0;
    let mut k: usize = 0;
    while k < arena.len()
        invariant
            k <= arena@.len(),
            directories == nodes_of_kind(arena@.take(k as int), FeatureKind::Dir).len(),
            directories <= k,
        decreases arena.len() - k,
    {
        proof {
            assert(arena@.take(k + 1).drop_last() =~= arena@.take(k as int));
            assert(arena@.take(k + 1).last() == arena@[k as int]);
        }
        if k >= 1 && arena[k].kind == FeatureKind::Dir {
            directories = directories + 1;
        }
        k = k + 1;
    }
    assert(arena@.take(arena@.len() as int) =~= arena@);
    let mut lines: u64 = 0;
    let mut bytes: u64 = 0;
    let mut langs: Vec<String> = Vec::new();
    let mut i: usize = 0;
    proof {
        assert(name_set(langs@) =~= file_languages(files@.take(0)));
    }
    while i < files.len()
        invariant
            i <= files@.len(),
            total_lines(files@) <= u64::MAX,
            total_bytes(files@) <= u64::MAX,
            lines == total_lines(files@.take(i as int)),
            bytes == total_bytes(files@.take(i as int)),
            names_sorted(langs@),
            name_set(langs@) == file_languages(files@.take(i as int)),
        decreases files.len() - i,
    {
        proof {
            assert(files@.take(i + 1).drop_last() =~= files@.take(i as int));
            lemma_totals_prefix(files@, i + 1);
        }
        lines = lines + files[i].lines;
        bytes = bytes + files[i].bytes;
        insert_name(&mut langs, &files[i].language);
        i = i + 1;
        proof {
            assert(name_set(langs@) =~= file_languages(files@.take(i as int))) by {
                assert forall|l: Seq<char>| file_languages(files@.take(i as int)).contains(l) == file_languages(files@.take(i - 1)).insert(files@[i - 1].language@).contains(l) by {
                    if file_languages(files@.take(i as int)).contains(l) {
                        let j = choose|j: int| 0 <= j < files@.take(i as int).len() && #[trigger] files@.take(i as int)[j].language@ == l;
                        if j < i - 1 {
                            assert(files@.take(i - 1)[j] == files@.take(i as int)[j]);
                        }
                    }
                    if file_languages(files@.take(i - 1)).contains(l) {
                        let j = choose|j: int| 0 <= j < files@.take(i - 1).len() && #[trigger] files@.take(i - 1)[j].language@ == l;
                        assert(files@.take(i as int)[j] == files@.take(i - 1)[j]);
                    }
                    if l == files@[i - 1].language@ {
                        assert(files@.take(i as int)[i - 1].language@ == l);
                    }
                }
            }
        }
    }
    proof {
        assert(files@.take(files@.len() as int) =~= files@);
        lemma_sorted_names_count(langs@);
    }
    Stats {
        files: files.len() as u64,
        directories,
        lines,
        bytes,
        languages: langs.len() as u32,
    }
}

/// The totals of a prefix of the files are at most those of all of them.
proof fn lemma_totals_prefix(files: Seq<FileRow>, n: int)
    requires
        0 <= n <= files.len(),
    ensures
        total_lines(files.take(n)) <= total_lines(files),
        total_bytes(files.take(n)) <= total_bytes(files),
    decreases files.len() - n,
{
    if n < files.len() {
        lemma_totals_prefix(files, n + 1);
        assert(files.take(n + 1).drop_last() =~= files.take(n));
    } else {
        assert(files.take(n) =~= files);
    }
}

/// The lines of a file as the path index stores them, clamped to `u32`.
pub open spec fn clamp32(x: u64) -> u32 {
    if x > u32::MAX { u32::MAX } else { x as u32 }
}

/// The path index rows of the files: id, path, and lines and bytes clamped to `u32`.
pub fn path_entries(files: &Vec<FileRow>) -> (r: Vec<PathEntry>)
    ensures
        r@.len() == files@.len(),
        forall|i: int| 0 <= i < files@.len() ==> {
            &&& #[trigger] r@[i].id == files@[i].id
            &&& r@[i].path@ == files@[i].path@
            &&& r@[i].lines == clamp32(files@[i].lines)
            &&& r@[i].bytes == clamp32(files@[i].bytes)
        },
{
    let mut out: Vec<PathEntry> = Vec::new();
    let mut i: usize = 0;
    while i < files.len()
        invariant
            i <= files@.len(),
            out@.len() == i,
            forall|j: int| 0 <= j < i ==> {
                &&& #[trigger] out@[j].id == files@[j].id
                &&& out@[j].path@ == files@[j].path@
                &&& out@[j].lines == clamp32(files@[j].lines)
                &&& out@[j].bytes == clamp32(files@[j].bytes)
            },
        decreases files.len() - i,
    {
        let f = &files[i];
        let lines: u32 = if f.lines > 0xffff_ffff { 0xffff_ffff } else { f.lines as u32 };
        let bytes: u32 = if f.bytes > 0xffff_ffff { 0xffff_ffff } else { f.bytes as u32 };
        out.push(PathEntry { id: f.id, lines, bytes, path: f.path.clone() });
        i = i + 1;
    }
    out
}

/// The smallest and largest line counts of the files, `(0, 0)` for none.
pub open spec fn lines_range(files: Seq<FileRow>) -> (u64, u64)
    decreases files.len(),
{
    if files.len() == 0 {
        (0, 0)
    } else if files.len() == 1 {
        (files[0].lines, files[0].lines)
    } else {
        let (lo, hi) = lines_range(files.drop_last());
        let n = files.last().lines;
        (if n < lo { n } else { lo }, if n > hi { n } else { hi })
    }
}

/// The range of the lines layer: the smallest and largest line counts, `(0, 0)` for no files.
pub fn line_range(files: &Vec<FileRow>) -> (r: (u64, u64))
    ensures
        r == lines_range(files@),
        files@.len() == 0 ==> r == (0u64, 0u64),
        files@.len() > 0 ==> (exists|i: int| 0 <= i < files@.len() && #[trigger] files@[i].lines == r.0),
        files@.len() > 0 ==> (exists|i: int| 0 <= i < files@.len() && #[trigger] files@[i].lines == r.1),
        forall|j: int| 0 <= j < files@.len() ==> r.0 <= #[trigger] files@[j].lines <= r.1,
{
    if files.len() == 0 {
        return (0, 0);
    }
    proof {
        law_line_range_is_min_and_max(files@);
    }
    let mut lo: u64 = files[0].lines;
    let mut hi: u64 = files[0].lines;
    let mut i: usize = 1;
    proof {
        assert(files@.take(1).drop_last() =~= Seq::<FileRow>::empty());
    }
    while i < files.len()
        invariant
            1 <= i <= files@.len(),
            (lo, hi) == lines_range(files@.take(i as int)),
        decreases files.len() - i,
    {
        proof {
            assert(files@.take(i + 1).drop_last() =~= files@.take(i as int));
        }
        let n = files[i].lines;
        if n < lo {
            lo = n;
        }
        if n > hi {
            hi = n;
        }
        i = i + 1;
    }
    assert(files@.take(files@.len() as int) =~= files@);
    (lo, hi)
}

/// The path index of the files, in their order.
pub fn paths_index(files: &Vec<FileRow>) -> (r: PathsIndex)
    ensures
        r.entries@.len() == files@.len(),
        forall|i: int| #![trigger r.entries@[i]] 0 <= i < files@.len() ==> {
            &&& r.entries@[i].id == files@[i].id
            &&& r.entries@[i].path@ == files@[i].path@
            &&& r.entries@[i].lines == clamp32(files@[i].lines)
            &&& r.entries@[i].bytes == clamp32(files@[i].bytes)
        },
{
    let entries = path_entries(files);
    let r = PathsIndex { entries };
    assert forall|i: int| #![trigger r.entries@[i]] 0 <= i < files@.len() implies {
        &&& r.entries@[i].id == files@[i].id
        &&& r.entries@[i].path@ == files@[i].path@
        &&& r.entries@[i].lines == clamp32(files@[i].lines)
        &&& r.entries@[i].bytes == clamp32(files@[i].bytes)
    } by {
        assert(r.entries@[i] == entries@[i]);
        assert(entries@[i].id == files@[i].id);
    }
    r
}

/// The repo name recorded when none is given: the name of the directory holding the index, if
/// it has one other than `.`; else `repo`.
pub open spec fn repo_name_of(index: Seq<char>) -> Seq<char> {
    match path_parent(index) {
        Some(p) => match path_file_name(p) {
            Some(n) => if n.len() > 0 && n != "."@ { n } else { "repo"@ },
            None => "repo"@,
        },
        None => "repo"@,
    }
}

/// Repo name for the manifest when none is given: the directory holding the index.db.
pub fn default_repo_name(index: &str) -> (r: String)
    ensures
        r@ == repo_name_of(index@),
{
    if let Some(parent) = parent_of(index) {
        if let Some(name) = file_name_of(parent) {
            if !name.is_empty() && !str_equal(name, ".") {
                return String::from_str(name);
            }
        }
    }
    String::from_str("repo")
}

/// Law: for at least one file, the range of the lines layer runs from the line count of a file
/// that no file undercuts to the line count of a file that no file exceeds.
pub proof fn law_line_range_is_min_and_max(files: Seq<FileRow>)
    requires
        files.len() > 0,
    ensures
        exists|i: int| 0 <= i < files.len() && #[trigger] files[i].lines == lines_range(files).0,
        exists|i: int| 0 <= i < files.len() && #[trigger] files[i].lines == lines_range(files).1,
        forall|j: int| 0 <= j < files.len() ==> lines_range(files).0 <= #[trigger] files[j].lines
            <= lines_range(files).1,
    decreases files.len(),
{
    if files.len() == 1 {
        assert(files[0].lines == lines_range(files).0);
        assert(files[0].lines == lines_range(files).1);
    } else {
        let init = files.drop_last();
        law_line_range_is_min_and_max(init);
        let (lo, hi) = lines_range(init);
        let n = files.last().lines;
        assert forall|j: int| 0 <= j < files.len() implies lines_range(files).0 <= #[trigger] files[j].lines
            <= lines_range(files).1 by {
            if j < files.len() - 1 {
                assert(files[j] == init[j]);
            }
        }
        if n < lo {
            assert(files[files.len() - 1].lines == lines_range(files).0);
        } else {
            let i = choose|i: int| 0 <= i < init.len() && #[trigger] init[i].lines == lo;
            assert(files[i].lines == lines_range(files).0);
        }
        if n > hi {
            assert(files[files.len() - 1].lines == lines_range(files).1);
        } else {
            let i = choose|i: int| 0 <= i < init.len() && #[trigger] init[i].lines == hi;
            assert(files[i].lines == lines_range(files).1);
        }
    }
}

} // verus!

//! The indexer's counting rules: what counts as binary, how lines are counted, and the per-language
//! tally a scan of a source tree builds.

use vstd::prelude::*;
use crate::strings::str_equal;

verus! {

/// Files larger than this are counted but not read line by line.
pub const MAX_TEXT_BYTES: u64 = 2 * 1024 * 1024;

/// How much of a file's start is searched for a NUL byte.
pub const SNIFF_BYTES: usize = 8 * 1024;

/// Same rule git uses: a NUL byte near the start means binary.
pub open spec fn binary_bytes(bytes: Seq<u8>) -> bool {
    exists|i: int| 0 <= i < bytes.len() && i < SNIFF_BYTES && bytes[i] == 0
}

/// Whether `bytes` holds a NUL byte in its first [`SNIFF_BYTES`].
pub fn is_binary(bytes: &[u8]) -> (r: bool)
    ensures
        r == binary_bytes(bytes@),
{
    let n = if bytes.len() < SNIFF_BYTES { bytes.len() } else { SNIFF_BYTES };
    let mut i: usize = 0;
    while i < n
        invariant
            i <= n <= bytes@.len(),
            n <= SNIFF_BYTES,
            n == bytes@.len() || n == SNIFF_BYTES,
            forall|k: int| 0 <= k < i ==> bytes@[k] != 0,
        decreases n - i,
    {
        if bytes[i] == 0 {
            return true;
        }
        i = i + 1;
    }
    false
}

/// The number of `\n` bytes in `s`.
pub open spec fn newlines(s: Seq<u8>) -> nat
    decreases s.len(),
{
    if s.len() == 0 {
        0
    } else {
        newlines(s.drop_last()) + if s.last() == 10 { 1nat } else { 0nat }
    }
}

/// Newline count, plus one for a final line with no trailing newline.
pub open spec fn line_count(s: Seq<u8>) -> nat {
    if s.len() == 0 {
        0
    } else if s.last() == 10 {
        newlines(s)
    } else {
        newlines(s) + 1
    }
}

proof fn lemma_newlines_bound(s: Seq<u8>)
    ensures
        newlines(s) <= s.len(),
        s.len() > 0 && s.last() != 10 ==> newlines(s) < s.len(),
    decreases s.len(),
{
    if s.len() > 0 {
        lemma_newlines_bound(s.drop_last());
    }
}

/// The number of lines in `bytes`: newlines, plus one for a last line without one.
pub fn count_lines(bytes: &[u8]) -> (r: u64)
    ensures
        r == line_count(bytes@),
{
    if bytes.len() == 0 {
        return 0;
    }
    let mut count: u64 = 0;
    let mut i: usize = 0;
    while i < bytes.len()
        invariant
            i <= bytes@.len(),
            count == newlines(bytes@.take(i as int)),
            count <= i,
        decreases bytes.len() - i,
    {
        assert(bytes@.take(i + 1).drop_last() =~= bytes@.take(i as int));
        if bytes[i] == 10 {
            count = count + 1;
        }
        i = i + 1;
    }
    assert(bytes@.take(bytes@.len() as int) =~= bytes@);
    proof {
        lemma_newlines_bound(bytes@);
    }
    if bytes[bytes.len() - 1] == 10 {
        count
    } else {
        count + 1
    }
}

/// Files, lines and bytes counted for one language.
#[derive(Debug, Clone, Copy, Default, PartialEq, Eq, Structural)]
pub struct LanguageStats {
    pub files: u64,
    pub lines: u64,
    pub bytes: u64,
}

/// What a scan of a source tree counted. Each language occurs once in `by_language`.
#[derive(Debug, Clone, Default, PartialEq, Eq)]
pub struct ScanReport {
    /// Text files that were read and counted.
    pub files: u64,
    pub lines: u64,
    pub bytes: u64,
    pub skipped_binary: u64,
    pub skipped_oversize: u64,
    /// Per-language counts, each language once.
    pub by_language: Vec<(String, LanguageStats)>,
}

/// A scan report as a mathematical value: the totals and the per-language map.
pub struct ScanTotals {
    pub files: u64,
    pub lines: u64,
    pub bytes: u64,
    pub skipped_binary: u64,
    pub skipped_oversize: u64,
    pub by_language: Map<Seq<char>, LanguageStats>,
}

/// No language name occurs twice.
pub open spec fn names_distinct(e: Seq<(String, LanguageStats)>) -> bool {
    forall|i: int, j: int| 0 <= i < j < e.len() ==> e[i].0@ != e[j].0@
}

/// The per-language entries as a map from name to counts.
pub open spec fn stats_map(e: Seq<(String, LanguageStats)>) -> Map<Seq<char>, LanguageStats>
    decreases e.len(),
{
    if e.len() == 0 {
        Map::empty()
    } else {
        stats_map(e.drop_last()).insert(e.last().0@, e.last().1)
    }
}

impl View for ScanReport {
    type V = ScanTotals;

    open spec fn view(&self) -> ScanTotals {
        ScanTotals {
            files: self.files,
            lines: self.lines,
            bytes: self.bytes,
            skipped_binary: self.skipped_binary,
            skipped_oversize: self.skipped_oversize,
            by_language: stats_map(self.by_language@),
        }
    }
}

proof fn lemma_stats_map_absent(e: Seq<(String, LanguageStats)>, k: Seq<char>)
    requires
        forall|i: int| 0 <= i < e.len() ==> e[i].0@ != k,
    ensures
        !stats_map(e).dom().contains(k),
    decreases e.len(),
{
    if e.len() > 0 {
        lemma_stats_map_absent(e.drop_last(), k);
    }
}

proof fn lemma_stats_map_update(e: Seq<(String, LanguageStats)>, i: int, v: LanguageStats)
    requires
        names_distinct(e),
        0 <= i < e.len(),
    ensures
        stats_map(e.update(i, (e[i].0, v))) == stats_map(e).insert(e[i].0@, v),
    decreases e.len(),
{
    let u = e.update(i, (e[i].0, v));
    if i == e.len() - 1 {
        assert(u.drop_last() =~= e.drop_last());
        assert(stats_map(u) =~= stats_map(e).insert(e[i].0@, v));
    } else {
        assert(u.drop_last() =~= e.drop_last().update(i, (e[i].0, v)));
        lemma_stats_map_update(e.drop_last(), i, v);
        assert(stats_map(u) =~= stats_map(e).insert(e[i].0@, v));
    }
}

proof fn lemma_stats_map_at(e: Seq<(String, LanguageStats)>, i: int)
    requires
        names_distinct(e),
        0 <= i < e.len(),
    ensures
        stats_map(e).dom().contains(e[i].0@),
        stats_map(e)[e[i].0@] == e[i].1,
    decreases e.len(),
{
    if i < e.len() - 1 {
        lemma_stats_map_at(e.drop_last(), i);
    }
}

/// Where `language` stands among the entries, if it does.
fn position_of(e: &Vec<(String, LanguageStats)>, language: &str) -> (r: Option<usize>)
    ensures
        r matches Some(i) ==> i < e@.len() && e@[i as int].0@ == language@,
        r is None ==> forall|k: int| 0 <= k < e@.len() ==> e@[k].0@ != language@,
{
    let mut i: usize = 0;
    while i < e.len()
        invariant
            i <= e@.len(),
            forall|k: int| 0 <= k < i ==> e@[k].0@ != language@,
        decreases e.len() - i,
    {
        if str_equal(e[i].0.as_str(), language) {
            return Some(i);
        }
        i = i + 1;
    }
    None
}

impl ScanReport {
    /// An empty report.
    pub fn new() -> (r: ScanReport)
        ensures
            r@.files == 0 && r@.lines == 0 && r@.bytes == 0,
            r@.skipped_binary == 0 && r@.skipped_oversize == 0,
            r@.by_language == Map::<Seq<char>, LanguageStats>::empty(),
            r.wf(),
    {
        ScanReport {
            files: 0,
            lines: 0,
            bytes: 0,
            skipped_binary: 0,
            skipped_oversize: 0,
            by_language: Vec::new(),
        }
    }

    /// Each language occurs once.
    pub open spec fn wf(&self) -> bool {
        names_distinct(self.by_language@)
    }

    /// The counts for `language`, if any file of it was counted.
    pub fn stats_for(&self, language: &str) -> (r: Option<LanguageStats>)
        requires
            self.wf(),
        ensures
            r == (if self@.by_language.dom().contains(language@) {
                Some(self@.by_language[language@])
            } else {
                None
            }),
    {
        match position_of(&self.by_language, language) {
            Some(i) => {
                proof {
                    lemma_stats_map_at(self.by_language@, i as int);
                }
                Some(self.by_language[i].1)
            },
            None => {
                proof {
                    lemma_stats_map_absent(self.by_language@, language@);
                }
                None
            },
        }
    }

    /// Count a file too large to read line by line.
    pub fn note_oversize(&mut self)
        requires
            old(self).skipped_oversize < u64::MAX,
        ensures
            final(self)@ == (ScanTotals { skipped_oversize: (old(self).skipped_oversize + 1) as u64, ..old(self)@ }),
            final(self).wf() == old(self).wf(),
    {
        self.skipped_oversize = self.skipped_oversize + 1;
    }

    /// Count a file of `language` whose size is `size` and whose content is `bytes`: binary
    /// files are only counted as skipped; text files add a file, their lines and their size to
    /// the totals and to their language.
    pub fn add_file(&mut self, language: &str, size: u64, bytes: &[u8])
        requires
            old(self).wf(),
            old(self).skipped_binary < u64::MAX,
            old(self).files < u64::MAX,
            old(self).lines + line_count(bytes@) <= u64::MAX,
            old(self).bytes + size <= u64::MAX,
            old(self)@.by_language.dom().contains(language@) ==> {
                let s = old(self)@.by_language[language@];
                s.files < u64::MAX && s.lines + line_count(bytes@) <= u64::MAX && s.bytes + size <= u64::MAX
            },
        ensures
            final(self).wf(),
            binary_bytes(bytes@) ==> final(self)@ == (ScanTotals {
                skipped_binary: (old(self).skipped_binary + 1) as u64,
                ..old(self)@
            }),
            !binary_bytes(bytes@) ==> {
                let before = if old(self)@.by_language.dom().contains(language@) {
                    old(self)@.by_language[language@]
                } else {
                    LanguageStats { files: 0, lines: 0, bytes: 0 }
                };
                final(self)@ == (ScanTotals {
                    files: (old(self).files + 1) as u64,
                    lines: (old(self).lines + line_count(bytes@)) as u64,
                    bytes: (old(self).bytes + size) as u64,
                    by_language: old(self)@.by_language.insert(language@, LanguageStats {
                        files: (before.files + 1) as u64,
                        lines: (before.lines + line_count(bytes@)) as u64,
                        bytes: (before.bytes + size) as u64,
                    }),
                    ..old(self)@
                })
            },
    {
        if is_binary(bytes) {
            self.skipped_binary = self.skipped_binary + 1;
            return;
        }
        let lines = count_lines(bytes);
        let found = position_of(&self.by_language, language);
        if let Some(i) = found {
            let ghost e = self.by_language@;
            proof {
                lemma_stats_map_at(e, i as int);
            }
            let name = self.by_language[i].0.clone();
            let s = self.by_language[i].1;
            let updated = LanguageStats {
                files: s.files + 1,
                lines: s.lines + lines,
                bytes: s.bytes + size,
            };
            self.by_language.set(i, (name, updated));
            proof {
                assert(self.by_language@ == e.update(i as int, (e[i as int].0, updated)));
                lemma_stats_map_update(e, i as int, updated);
                assert forall|a: int, b: int| 0 <= a < b < self.by_language@.len() implies
                    self.by_language@[a].0@ != self.by_language@[b].0@ by {
                    assert(e[a].0@ != e[b].0@);
                }
            }
        } else {
            proof {
                lemma_stats_map_absent(self.by_language@, language@);
            }
            let ghost e = self.by_language@;
            let name = String::from_str(language);
            self.by_language.push((name, LanguageStats { files: 1, lines: lines, bytes: size }));
            proof {
                assert(self.by_language@.drop_last() =~= e);
            }
        }
        self.files = self.files + 1;
        self.lines = self.lines + lines;
        self.bytes = self.bytes + size;
    }
}

} // verus!

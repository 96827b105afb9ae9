//! Symbols and imports from the query matches of a parse. A grammar's symbol query captures a
//! definition as `@def.<kind>` and its name as `@name`; its import query captures the imported
//! module as `@import` and, for import calls such as `require`, the called function as
//! `@callee`. The parser hands the matches over as plain values.

use vstd::prelude::*;
use vstd::utf8::encode_utf8;
use crate::grammars::{clean_import, cleaned_import, Import, Parsed, Symbol};
use crate::tokens::{leaf_spans, sorted_first_by_start, spans_from_leaves, Leaf};
use crate::strings::{chars_of, str_equal, string_of};
use crate::tree::{lex_lt, text_less};

verus! {

/// One capture of a query match: its name in the query, the text of the captured node (none
/// where that text is not UTF-8), and the rows (0-based) the node starts and ends on.
pub struct Capture {
    pub name: String,
    pub text: Option<String>,
    pub start_row: u32,
    pub end_row: u32,
}

/// The captures of one query match, in order.
pub struct QueryMatch {
    pub captures: Vec<Capture>,
}

/// A symbol as a mathematical value: `(start_line, end_line, kind, name)`.
pub type SymbolKey = (u32, u32, Seq<char>, Seq<char>);

/// An import as a mathematical value: `(line, module)`.
pub type ImportKey = (u32, Seq<char>);

pub open spec fn symbol_key(s: Symbol) -> SymbolKey {
    (s.start_line, s.end_line, s.kind@, s.name@)
}

pub open spec fn import_key(i: Import) -> ImportKey {
    (i.line, i.module@)
}

pub open spec fn text_of(t: Option<String>) -> Option<Seq<char>> {
    match t {
        Some(s) => Some(s@),
        None => None,
    }
}

/// The kind a capture named `name` defines: the rest of a name that starts with `def.`.
pub open spec fn def_kind(name: Seq<char>) -> Option<Seq<char>> {
    if name.len() >= 4 && name.take(4) == "def."@ {
        Some(name.skip(4))
    } else {
        None
    }
}

/// The text of the last capture named `name` in `cs`, if there is such a capture.
pub open spec fn last_named(cs: Seq<Capture>, name: Seq<char>) -> Option<Option<Seq<char>>>
    decreases cs.len(),
{
    if cs.len() == 0 {
        None
    } else if cs.last().name@ == name {
        Some(text_of(cs.last().text))
    } else {
        last_named(cs.drop_last(), name)
    }
}

/// The last capture of `cs` whose name defines a kind: the kind and the capture.
pub open spec fn last_def(cs: Seq<Capture>) -> Option<(Seq<char>, Capture)>
    decreases cs.len(),
{
    if cs.len() == 0 {
        None
    } else if cs.last().name@ != "name"@ && def_kind(cs.last().name@) is Some {
        Some((def_kind(cs.last().name@)->0, cs.last()))
    } else {
        last_def(cs.drop_last())
    }
}

/// The last capture of `cs` named `import`.
pub open spec fn last_import(cs: Seq<Capture>) -> Option<Capture>
    decreases cs.len(),
{
    if cs.len() == 0 {
        None
    } else if cs.last().name@ == "import"@ {
        Some(cs.last())
    } else {
        last_import(cs.drop_last())
    }
}

/// The symbol a match defines: its last `@name` text, when that is UTF-8 and not empty, and
/// its last `@def.<kind>` capture, whose rows give the symbol's 1-based lines.
pub open spec fn symbol_of(cs: Seq<Capture>) -> Option<SymbolKey> {
    match (last_named(cs, "name"@), last_def(cs)) {
        (Some(Some(n)), Some((kind, def))) => if n.len() > 0 {
            Some(((def.start_row + 1) as u32, (def.end_row + 1) as u32, kind, n))
        } else {
            None
        },
        _ => None,
    }
}

/// The symbols of the matches, in match order.
pub open spec fn symbols_of(ms: Seq<QueryMatch>) -> Seq<SymbolKey>
    decreases ms.len(),
{
    if ms.len() == 0 {
        seq![]
    } else {
        symbols_of(ms.drop_last()) + match symbol_of(ms.last().captures@) {
            Some(s) => seq![s],
            None => seq![],
        }
    }
}

/// The import a match names: the cleaned text of its last `@import` capture, when that text is
/// UTF-8 and not empty after cleaning, on the capture's 1-based line; none when the match's
/// last `@callee` is a function that is not an import call.
pub open spec fn import_of(cs: Seq<Capture>, callees: Seq<Seq<char>>) -> Option<ImportKey> {
    if last_named(cs, "callee"@) matches Some(Some(c)) && !callees.contains(c) {
        None
    } else {
        match last_import(cs) {
            Some(m) => match text_of(m.text) {
                Some(raw) => if cleaned_import(raw).len() > 0 {
                    Some(((m.start_row + 1) as u32, cleaned_import(raw)))
                } else {
                    None
                },
                None => None,
            },
            None => None,
        }
    }
}

/// The imports of the matches, in match order.
pub open spec fn imports_of(ms: Seq<QueryMatch>, callees: Seq<Seq<char>>) -> Seq<ImportKey>
    decreases ms.len(),
{
    if ms.len() == 0 {
        seq![]
    } else {
        imports_of(ms.drop_last(), callees) + match import_of(ms.last().captures@, callees) {
            Some(i) => seq![i],
            None => seq![],
        }
    }
}

/// Every capture row leaves room for the 1-based line after it.
pub open spec fn rows_fit(ms: Seq<QueryMatch>) -> bool {
    forall|i: int, j: int| 0 <= i < ms.len() && 0 <= j < ms[i].captures@.len() ==> (#[trigger] ms[i].captures@[j]).start_row
        < u32::MAX && ms[i].captures@[j].end_row < u32::MAX
}

/// The order of derived `Ord` on symbols: by start line, end line, kind, then name.
pub open spec fn symbol_lt(a: SymbolKey, b: SymbolKey) -> bool {
    a.0 < b.0 || (a.0 == b.0 && (a.1 < b.1 || (a.1 == b.1 && (lex_lt(a.2, b.2) || (a.2 == b.2 && lex_lt(a.3, b.3))))))
}

/// The order of derived `Ord` on imports: by line, then module.
pub open spec fn import_lt(a: ImportKey, b: ImportKey) -> bool {
    a.0 < b.0 || (a.0 == b.0 && lex_lt(a.1, b.1))
}

pub open spec fn symbols_sorted(s: Seq<SymbolKey>) -> bool {
    forall|i: int, j: int| 0 <= i < j < s.len() ==> symbol_lt(#[trigger] s[i], #[trigger] s[j])
}

pub open spec fn imports_sorted(s: Seq<ImportKey>) -> bool {
    forall|i: int, j: int| 0 <= i < j < s.len() ==> import_lt(#[trigger] s[i], #[trigger] s[j])
}

proof fn lemma_symbol_order(a: SymbolKey, b: SymbolKey)
    ensures
        symbol_lt(a, b) ==> !symbol_lt(b, a),
        a != b ==> symbol_lt(a, b) || symbol_lt(b, a),
        !symbol_lt(a, a),
{
    crate::tree::lemma_lex_order(a.2, b.2);
    crate::tree::lemma_lex_order(a.3, b.3);
}

proof fn lemma_symbol_trans(a: SymbolKey, b: SymbolKey, c: SymbolKey)
    requires
        symbol_lt(a, b),
        symbol_lt(b, c),
    ensures
        symbol_lt(a, c),
{
    if a.0 == b.0 && b.0 == c.0 && a.1 == b.1 && b.1 == c.1 {
        if lex_lt(a.2, b.2) && lex_lt(b.2, c.2) {
            crate::tree::lemma_lex_trans(a.2, b.2, c.2);
        } else if a.2 == b.2 && b.2 == c.2 {
            crate::tree::lemma_lex_trans(a.3, b.3, c.3);
        }
    }
}

proof fn lemma_import_order(a: ImportKey, b: ImportKey)
    ensures
        import_lt(a, b) ==> !import_lt(b, a),
        a != b ==> import_lt(a, b) || import_lt(b, a),
        !import_lt(a, a),
{
    crate::tree::lemma_lex_order(a.1, b.1);
}

proof fn lemma_import_trans(a: ImportKey, b: ImportKey, c: ImportKey)
    requires
        import_lt(a, b),
        import_lt(b, c),
    ensures
        import_lt(a, c),
{
    if a.0 == b.0 && b.0 == c.0 {
        crate::tree::lemma_lex_trans(a.1, b.1, c.1);
    }
}

/// Whether `name` is exactly `word`.
fn is_named(name: &String, word: &str) -> (r: bool)
    ensures
        r == (name@ == word@),
{
    str_equal(name.as_str(), word)
}

/// The kind a capture name defines, if it starts with `def.`.
fn def_kind_of(name: &String) -> (r: Option<String>)
    ensures
        text_of(r) == def_kind(name@),
{
    let cs = chars_of(name.as_str());
    proof {
        reveal_strlit("def.");
    }
    if cs.len() >= 4 && cs[0] == 'd' && cs[1] == 'e' && cs[2] == 'f' && cs[3] == '.' {
        assert(cs@.take(4) =~= "def."@);
        let k = string_of(&cs, 4, cs.len());
        assert(k@ =~= name@.skip(4));
        Some(k)
    } else {
        proof {
            if name@.len() >= 4 && name@.take(4) == "def."@ {
                assert(name@.take(4)[0] == 'd' && name@.take(4)[1] == 'e');
                assert(name@.take(4)[2] == 'f' && name@.take(4)[3] == '.');
            }
        }
        None
    }
}

fn copy_text(t: &Option<String>) -> (r: Option<String>)
    ensures
        text_of(r) == text_of(*t),
{
    match t {
        Some(s) => Some(s.clone()),
        None => None,
    }
}

/// The symbol one match defines, if any.
fn symbol_from(m: &QueryMatch) -> (r: Option<Symbol>)
    requires
        forall|j: int| 0 <= j < m.captures@.len() ==> (#[trigger] m.captures@[j]).start_row < u32::MAX
            && m.captures@[j].end_row < u32::MAX,
    ensures
        match r {
            Some(s) => symbol_of(m.captures@) == Some(symbol_key(s)),
            None => symbol_of(m.captures@) is None,
        },
{
    let cs = &m.captures;
    let mut name: Option<Option<String>> = None;
    let mut def: Option<(String, u32, u32)> = None;
    let mut i: usize = 0;
    while i < cs.len()
        invariant
            i <= cs@.len(),
            forall|j: int| 0 <= j < cs@.len() ==> (#[trigger] cs@[j]).start_row < u32::MAX && cs@[j].end_row < u32::MAX,
            match name {
                Some(t) => last_named(cs@.take(i as int), "name"@) == Some(text_of(t)),
                None => last_named(cs@.take(i as int), "name"@) is None,
            },
            match def {
                Some((k, r0, r1)) => last_def(cs@.take(i as int)) matches Some((kk, c)) && kk == k@ && c.start_row
                    == r0 && c.end_row == r1,
                None => last_def(cs@.take(i as int)) is None,
            },
            def matches Some((k, r0, r1)) ==> r0 < u32::MAX && r1 < u32::MAX,
        decreases cs@.len() - i,
    {
        let c = &cs[i];
        proof {
            assert(cs@.take(i + 1).drop_last() =~= cs@.take(i as int));
            assert(cs@.take(i + 1).last() == cs@[i as int]);
        }
        if is_named(&c.name, "name") {
            name = Some(copy_text(&c.text));
        } else {
            match def_kind_of(&c.name) {
                Some(k) => {
                    def = Some((k, c.start_row, c.end_row));
                },
                None => {},
            }
        }
        i = i + 1;
    }
    proof {
        assert(cs@.take(cs@.len() as int) =~= cs@);
    }
    match (name, def) {
        (Some(Some(n)), Some((kind, r0, r1))) => {
            if !n.as_str().is_empty() {
                Some(Symbol { start_line: r0 + 1, end_line: r1 + 1, kind, name: n })
            } else {
                None
            }
        },
        _ => None,
    }
}

/// The symbols the matches define, in match order.
pub fn symbols_from(ms: &Vec<QueryMatch>) -> (r: Vec<Symbol>)
    requires
        rows_fit(ms@),
    ensures
        r@.map_values(|s: Symbol| symbol_key(s)) == symbols_of(ms@),
{
    let mut out: Vec<Symbol> = Vec::new();
    let mut i: usize = 0;
    while i < ms.len()
        invariant
            i <= ms@.len(),
            rows_fit(ms@),
            out@.map_values(|s: Symbol| symbol_key(s)) == symbols_of(ms@.take(i as int)),
        decreases ms@.len() - i,
    {
        proof {
            assert(ms@.take(i + 1).drop_last() =~= ms@.take(i as int));
            assert forall|j: int| 0 <= j < ms@[i as int].captures@.len() implies (#[trigger] ms@[i as int].captures@[j]).start_row
                < u32::MAX && ms@[i as int].captures@[j].end_row < u32::MAX by {}
        }
        let ghost before = out@;
        match symbol_from(&ms[i]) {
            Some(s) => {
                out.push(s);
                assert(out@.map_values(|s: Symbol| symbol_key(s)) =~= before.map_values(|s: Symbol| symbol_key(s)).push(
                    symbol_key(out@[before.len() as int]),
                ));
            },
            None => {},
        }
        i = i + 1;
        assert(out@.map_values(|s: Symbol| symbol_key(s)) =~= symbols_of(ms@.take(i as int)));
    }
    assert(ms@.take(ms@.len() as int) =~= ms@);
    out
}

/// The texts of the import-call functions.
pub open spec fn callee_texts(v: Seq<String>) -> Seq<Seq<char>> {
    v.map_values(|s: String| s@)
}

fn is_callee(c: &String, callees: &Vec<String>) -> (r: bool)
    ensures
        r == callee_texts(callees@).contains(c@),
{
    let mut j: usize = 0;
    while j < callees.len()
        invariant
            j <= callees@.len(),
            forall|k: int| 0 <= k < j ==> callees@[k]@ != c@,
        decreases callees@.len() - j,
    {
        if str_equal(callees[j].as_str(), c.as_str()) {
            assert(callee_texts(callees@)[j as int] == c@);
            return true;
        }
        j = j + 1;
    }
    proof {
        if callee_texts(callees@).contains(c@) {
            let k = choose|k: int| 0 <= k < callee_texts(callees@).len() && callee_texts(callees@)[k] == c@;
            assert(callees@[k]@ == c@);
        }
    }
    false
}

/// The import one match names, if any.
fn import_from(m: &QueryMatch, callees: &Vec<String>) -> (r: Option<Import>)
    requires
        forall|j: int| 0 <= j < m.captures@.len() ==> (#[trigger] m.captures@[j]).start_row < u32::MAX,
    ensures
        match r {
            Some(i) => import_of(m.captures@, callee_texts(callees@)) == Some(import_key(i)),
            None => import_of(m.captures@, callee_texts(callees@)) is None,
        },
{
    let cs = &m.captures;
    let mut module: Option<(Option<String>, u32)> = None;
    let mut callee: Option<Option<String>> = None;
    let mut i: usize = 0;
    while i < cs.len()
        invariant
            i <= cs@.len(),
            forall|j: int| 0 <= j < cs@.len() ==> (#[trigger] cs@[j]).start_row < u32::MAX,
            match module {
                Some((t, row)) => last_import(cs@.take(i as int)) matches Some(c) && text_of(c.text) == text_of(t)
                    && c.start_row == row,
                None => last_import(cs@.take(i as int)) is None,
            },
            module matches Some((t, row)) ==> row < u32::MAX,
            match callee {
                Some(t) => last_named(cs@.take(i as int), "callee"@) == Some(text_of(t)),
                None => last_named(cs@.take(i as int), "callee"@) is None,
            },
        decreases cs@.len() - i,
    {
        let c = &cs[i];
        proof {
            assert(cs@.take(i + 1).drop_last() =~= cs@.take(i as int));
            assert(cs@.take(i + 1).last() == cs@[i as int]);
        }
        proof {
            reveal_strlit("import");
            reveal_strlit("callee");
            assert("import"@ != "callee"@) by {
                assert("import"@[0] != "callee"@[0]);
            }
        }
        if is_named(&c.name, "import") {
            module = Some((copy_text(&c.text), c.start_row));
        } else if is_named(&c.name, "callee") {
            callee = Some(copy_text(&c.text));
        }
        i = i + 1;
    }
    proof {
        assert(cs@.take(cs@.len() as int) =~= cs@);
    }
    if let Some(Some(c)) = &callee {
        if !is_callee(c, callees) {
            return None;
        }
    }
    match module {
        Some((Some(raw), row)) => {
            let cleaned = clean_import(raw.as_str());
            if cleaned.as_str().is_empty() {
                None
            } else {
                Some(Import { line: row + 1, module: cleaned })
            }
        },
        _ => None,
    }
}

/// The imports the matches name, in match order. `callees` are the functions whose calls import
/// a module; a match with any other `@callee` names nothing.
pub fn imports_from(ms: &Vec<QueryMatch>, callees: &Vec<String>) -> (r: Vec<Import>)
    requires
        rows_fit(ms@),
    ensures
        r@.map_values(|i: Import| import_key(i)) == imports_of(ms@, callee_texts(callees@)),
{
    let mut out: Vec<Import> = Vec::new();
    let mut i: usize = 0;
    while i < ms.len()
        invariant
            i <= ms@.len(),
            rows_fit(ms@),
            out@.map_values(|i: Import| import_key(i)) == imports_of(ms@.take(i as int), callee_texts(callees@)),
        decreases ms@.len() - i,
    {
        proof {
            assert(ms@.take(i + 1).drop_last() =~= ms@.take(i as int));
            assert forall|j: int| 0 <= j < ms@[i as int].captures@.len() implies (#[trigger] ms@[i as int].captures@[j]).start_row
                < u32::MAX by {}
        }
        let ghost before = out@;
        match import_from(&ms[i], callees) {
            Some(m) => {
                out.push(m);
                assert(out@.map_values(|i: Import| import_key(i)) =~= before.map_values(|i: Import| import_key(i)).push(
                    import_key(out@[before.len() as int]),
                ));
            },
            None => {},
        }
        i = i + 1;
        assert(out@.map_values(|i: Import| import_key(i)) =~= imports_of(ms@.take(i as int), callee_texts(callees@)));
    }
    assert(ms@.take(ms@.len() as int) =~= ms@);
    out
}

/// The keys of symbols, in order.
pub open spec fn symbol_keys(v: Seq<Symbol>) -> Seq<SymbolKey> {
    v.map_values(|s: Symbol| symbol_key(s))
}

/// The keys of imports, in order.
pub open spec fn import_keys(v: Seq<Import>) -> Seq<ImportKey> {
    v.map_values(|i: Import| import_key(i))
}

proof fn lemma_insert_to_set<A>(s: Seq<A>, i: int, x: A)
    requires
        0 <= i <= s.len(),
    ensures
        s.insert(i, x).to_set() == s.to_set().insert(x),
{
    let t = s.insert(i, x);
    assert forall|y: A| t.to_set().contains(y) == s.to_set().insert(x).contains(y) by {
        if t.contains(y) {
            let j = choose|j: int| 0 <= j < t.len() && t[j] == y;
            if j < i {
                assert(s[j] == y);
            } else if j > i {
                assert(s[j - 1] == y);
            }
        }
        if s.contains(y) {
            let j = choose|j: int| 0 <= j < s.len() && s[j] == y;
            if j < i {
                assert(t[j] == y);
            } else {
                assert(t[j + 1] == y);
            }
        }
        if y == x {
            assert(t[i] == y);
        }
    }
    assert(t.to_set() =~= s.to_set().insert(x));
}

fn symbol_less(a: &Symbol, b: &Symbol) -> (r: bool)
    ensures
        r == symbol_lt(symbol_key(*a), symbol_key(*b)),
{
    a.start_line < b.start_line || (a.start_line == b.start_line && (a.end_line < b.end_line || (a.end_line
        == b.end_line && (text_less(a.kind.as_str(), b.kind.as_str()) || (str_equal(a.kind.as_str(), b.kind.as_str())
        && text_less(a.name.as_str(), b.name.as_str()))))))
}

fn symbol_same(a: &Symbol, b: &Symbol) -> (r: bool)
    ensures
        r == (symbol_key(*a) == symbol_key(*b)),
{
    a.start_line == b.start_line && a.end_line == b.end_line && str_equal(a.kind.as_str(), b.kind.as_str())
        && str_equal(a.name.as_str(), b.name.as_str())
}

fn import_less(a: &Import, b: &Import) -> (r: bool)
    ensures
        r == import_lt(import_key(*a), import_key(*b)),
{
    a.line < b.line || (a.line == b.line && text_less(a.module.as_str(), b.module.as_str()))
}

fn import_same(a: &Import, b: &Import) -> (r: bool)
    ensures
        r == (import_key(*a) == import_key(*b)),
{
    a.line == b.line && str_equal(a.module.as_str(), b.module.as_str())
}

fn insert_symbol(v: &mut Vec<Symbol>, s: Symbol)
    requires
        symbols_sorted(symbol_keys(old(v)@)),
    ensures
        symbols_sorted(symbol_keys(final(v)@)),
        symbol_keys(final(v)@).to_set() == symbol_keys(old(v)@).to_set().insert(symbol_key(s)),
{
    let ghost before = symbol_keys(v@);
    let ghost k = symbol_key(s);
    let mut i: usize = 0;
    while i < v.len() && symbol_less(&v[i], &s)
        invariant
            i <= v@.len(),
            symbol_keys(v@) == before,
            k == symbol_key(s),
            symbols_sorted(before),
            forall|j: int| 0 <= j < i ==> symbol_lt(#[trigger] before[j], k),
        decreases v@.len() - i,
    {
        assert(before[i as int] == symbol_key(v@[i as int]));
        i = i + 1;
    }
    if i < v.len() && symbol_same(&v[i], &s) {
        assert(before.to_set().insert(k) =~= before.to_set()) by {
            assert(before[i as int] == k);
        }
        return;
    }
    proof {
        if i < before.len() {
            lemma_symbol_order(before[i as int], k);
        }
    }
    let ghost old_v = v@;
    v.insert(i, s);
    let ghost after = symbol_keys(v@);
    assert(after =~= before.insert(i as int, k));
    assert forall|a: int, b: int| 0 <= a < b < after.len() implies symbol_lt(#[trigger] after[a], #[trigger] after[b]) by {
        if a < i && b == i {
        } else if a < i && b > i {
            assert(after[b] == before[b - 1]);
            lemma_symbol_trans(before[a], k, before[i as int]);
            if i < b - 1 {
                lemma_symbol_trans(before[a], before[i as int], before[b - 1]);
            }
        } else if a == i {
            assert(after[b] == before[b - 1]);
            if b - 1 > i {
                lemma_symbol_trans(k, before[i as int], before[b - 1]);
            }
        } else if a > i {
            assert(after[a] == before[a - 1]);
            assert(after[b] == before[b - 1]);
        }
    }
    proof {
        lemma_insert_to_set(before, i as int, k);
    }
}

fn insert_import(v: &mut Vec<Import>, m: Import)
    requires
        imports_sorted(import_keys(old(v)@)),
    ensures
        imports_sorted(import_keys(final(v)@)),
        import_keys(final(v)@).to_set() == import_keys(old(v)@).to_set().insert(import_key(m)),
{
    let ghost before = import_keys(v@);
    let ghost k = import_key(m);
    let mut i: usize = 0;
    while i < v.len() && import_less(&v[i], &m)
        invariant
            i <= v@.len(),
            import_keys(v@) == before,
            k == import_key(m),
            imports_sorted(before),
            forall|j: int| 0 <= j < i ==> import_lt(#[trigger] before[j], k),
        decreases v@.len() - i,
    {
        assert(before[i as int] == import_key(v@[i as int]));
        i = i + 1;
    }
    if i < v.len() && import_same(&v[i], &m) {
        assert(before.to_set().insert(k) =~= before.to_set()) by {
            assert(before[i as int] == k);
        }
        return;
    }
    proof {
        if i < before.len() {
            lemma_import_order(before[i as int], k);
        }
    }
    v.insert(i, m);
    let ghost after = import_keys(v@);
    assert(after =~= before.insert(i as int, k));
    assert forall|a: int, b: int| 0 <= a < b < after.len() implies import_lt(#[trigger] after[a], #[trigger] after[b]) by {
        if a < i && b == i {
        } else if a < i && b > i {
            assert(after[b] == before[b - 1]);
            lemma_import_trans(before[a], k, before[i as int]);
            if i < b - 1 {
                lemma_import_trans(before[a], before[i as int], before[b - 1]);
            }
        } else if a == i {
            assert(after[b] == before[b - 1]);
            if b - 1 > i {
                lemma_import_trans(k, before[i as int], before[b - 1]);
            }
        } else if a > i {
            assert(after[a] == before[a - 1]);
            assert(after[b] == before[b - 1]);
        }
    }
    proof {
        lemma_insert_to_set(before, i as int, k);
    }
}

/// The symbols in order, each once.
pub fn sorted_symbols(v: Vec<Symbol>) -> (r: Vec<Symbol>)
    ensures
        symbols_sorted(symbol_keys(r@)),
        symbol_keys(r@).to_set() == symbol_keys(v@).to_set(),
{
    let ghost all = symbol_keys(v@);
    let mut rest = v;
    let mut out: Vec<Symbol> = Vec::new();
    proof {
        assert(symbol_keys(out@).to_set() =~= Set::<SymbolKey>::empty());
    }
    while rest.len() > 0
        invariant
            symbols_sorted(symbol_keys(out@)),
            symbol_keys(out@).to_set().union(symbol_keys(rest@).to_set()) == all.to_set(),
        decreases rest@.len(),
    {
        let ghost before = rest@;
        let s = rest.pop().unwrap();
        proof {
            assert(symbol_keys(before) =~= symbol_keys(rest@).push(symbol_key(s)));
            crate::keys::lemma_to_set_push(symbol_keys(rest@), symbol_key(s));
        }
        let ghost out_before = symbol_keys(out@).to_set();
        insert_symbol(&mut out, s);
        assert(symbol_keys(out@).to_set().union(symbol_keys(rest@).to_set()) =~= all.to_set());
    }
    assert(symbol_keys(rest@).to_set() =~= Set::<SymbolKey>::empty());
    assert(symbol_keys(out@).to_set().union(symbol_keys(rest@).to_set()) =~= symbol_keys(out@).to_set());
    out
}

/// The imports in order, each once.
pub fn sorted_imports(v: Vec<Import>) -> (r: Vec<Import>)
    ensures
        imports_sorted(import_keys(r@)),
        import_keys(r@).to_set() == import_keys(v@).to_set(),
{
    let ghost all = import_keys(v@);
    let mut rest = v;
    let mut out: Vec<Import> = Vec::new();
    proof {
        assert(import_keys(out@).to_set() =~= Set::<ImportKey>::empty());
    }
    while rest.len() > 0
        invariant
            imports_sorted(import_keys(out@)),
            import_keys(out@).to_set().union(import_keys(rest@).to_set()) == all.to_set(),
        decreases rest@.len(),
    {
        let ghost before = rest@;
        let m = rest.pop().unwrap();
        proof {
            assert(import_keys(before) =~= import_keys(rest@).push(import_key(m)));
            crate::keys::lemma_to_set_push(import_keys(rest@), import_key(m));
        }
        insert_import(&mut out, m);
        assert(import_keys(out@).to_set().union(import_keys(rest@).to_set()) =~= all.to_set());
    }
    assert(import_keys(rest@).to_set() =~= Set::<ImportKey>::empty());
    assert(import_keys(out@).to_set().union(import_keys(rest@).to_set()) =~= import_keys(out@).to_set());
    out
}

/// What one parse gives the index: the symbols and the imports the matches name, each sorted
/// and once, and the token spans of the leaves.
pub fn parsed_from(
    symbol_matches: &Vec<QueryMatch>,
    import_matches: &Vec<QueryMatch>,
    callees: &Vec<String>,
    leaves: &Vec<Leaf>,
    source: &str,
) -> (r: Parsed)
    requires
        rows_fit(symbol_matches@),
        rows_fit(import_matches@),
    ensures
        symbols_sorted(symbol_keys(r.symbols@)),
        symbol_keys(r.symbols@).to_set() == symbols_of(symbol_matches@).to_set(),
        imports_sorted(import_keys(r.imports@)),
        import_keys(r.imports@).to_set() == imports_of(import_matches@, callee_texts(callees@)).to_set(),
        sorted_first_by_start(r.tokens@, leaf_spans(leaves@, encode_utf8(source@).len() as int)),
        encode_utf8(source@).len() <= u32::MAX ==> forall|k: int| 0 <= k < r.tokens@.len() ==> #[trigger] r.tokens@[k].start
            + r.tokens@[k].len <= encode_utf8(source@).len(),
{
    let symbols = sorted_symbols(symbols_from(symbol_matches));
    let imports = sorted_imports(imports_from(import_matches, callees));
    let tokens = spans_from_leaves(leaves, source);
    Parsed { symbols, imports, tokens }
}

} // verus!

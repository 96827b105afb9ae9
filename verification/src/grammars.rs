//! Tier-1 symbol and import extraction through tree-sitter: the compiled grammars with their
//! queries, the parse with its optional time budget, and what a parse produces for a file. Also
//! the text rules around it: which grammar a file is parsed with, and how a raw import token is
//! cleaned. Extraction never executes repository code; it only parses text.

use tree_sitter::StreamingIterator;
use vstd::prelude::*;
use vstd::string::StringExecFns;
use vstd::utf8::encode_utf8;
use crate::strings::{chars_of, str_equal, string_of, trim_bounds, trimmed};
use crate::symbols::{
    callee_texts, import_keys, imports_of, imports_sorted, parsed_from, rows_fit, symbol_keys,
    symbols_of, symbols_sorted, Capture, QueryMatch,
};
use crate::text::TokenSpan;
use crate::tokens::{lemma_leaves_spans, leaves_of, sorted_first_by_start, tree_spans, TreeNode};

verus! {

/// A symbol definition found in a file. Lines are 1-based.
#[derive(Debug, Clone, PartialEq, Eq, PartialOrd, Ord)]
pub struct Symbol {
    pub start_line: u32,
    pub end_line: u32,
    pub kind: String,
    pub name: String,
}

/// A raw import string found in a file. Line is 1-based.
#[derive(Debug, Clone, PartialEq, Eq, PartialOrd, Ord)]
pub struct Import {
    pub line: u32,
    pub module: String,
}

/// Outcome of parsing one file: what the index stores and what the text tiles color by.
pub struct Parsed {
    pub symbols: Vec<Symbol>,
    pub imports: Vec<Import>,
    pub tokens: Vec<TokenSpan>,
}

/// The grammar name for a file: its display language, except that TypeScript with a `.tsx`
/// extension is parsed with the TSX grammar.
pub open spec fn grammar_key_of(language: Seq<char>, extension: Option<Seq<char>>) -> Seq<char> {
    if language == "TypeScript"@ && extension == Some("tsx"@) {
        "TSX"@
    } else {
        language
    }
}

/// The grammar name for a file. Display language plus extension, so `.tsx` gets the TSX grammar
/// while `.ts` gets TypeScript.
pub fn grammar_key<'a>(language: &'a str, extension: Option<&str>) -> (r: &'a str)
    ensures
        r@ == grammar_key_of(language@, match extension { Some(e) => Some(e@), None => None }),
{
    let is_tsx = match extension {
        Some(e) => str_equal(e, "tsx"),
        None => false,
    };
    if str_equal(language, "TypeScript") && is_tsx {
        "TSX"
    } else {
        language
    }
}

/// Quote pairs that wrap an import token: `""`, `''`, backticks and angle brackets.
pub open spec fn quote_pair(first: char, last: char) -> bool {
    (first == '"' && last == '"') || (first == '\'' && last == '\'') || (first == '`' && last
        == '`') || (first == '<' && last == '>')
}

/// A raw import token trimmed of white space and stripped of one layer of quotes or angle
/// brackets.
pub open spec fn cleaned_import(raw: Seq<char>) -> Seq<char> {
    let t = trimmed(raw);
    if t.len() >= 2 && quote_pair(t[0], t.last()) {
        t.subrange(1, t.len() - 1)
    } else {
        t
    }
}

/// Strip one layer of surrounding quotes or angle brackets from a raw import token.
pub fn clean_import(raw: &str) -> (r: String)
    ensures
        r@ == cleaned_import(raw@),
{
    let cs = chars_of(raw);
    let (from, to) = trim_bounds(&cs);
    if to - from >= 2 {
        let first = cs[from];
        let last = cs[to - 1];
        let quoted = (first == '"' && last == '"') || (first == '\'' && last == '\'') || (first
            == '`' && last == '`') || (first == '<' && last == '>');
        if quoted {
            return string_of(&cs, from + 1, to - 1);
        }
    }
    string_of(&cs, from, to)
}


#[verifier::external_type_specification]
#[verifier::external_body]
pub struct ExLanguage(tree_sitter::Language);

#[verifier::external_type_specification]
#[verifier::external_body]
pub struct ExQuery(tree_sitter::Query);

#[verifier::external_type_specification]
#[verifier::external_body]
pub struct ExQueryError(tree_sitter::QueryError);

#[verifier::external_type_specification]
#[verifier::external_body]
pub struct ExTree(tree_sitter::Tree);

/// A compiled query of one grammar, with the grammar's name and the query's source text.
pub struct GrammarQuery {
    query: tree_sitter::Query,
    key: String,
    text: String,
}

/// A compiled grammar plus its queries. Symbol queries capture the definition node as
/// `@def.<kind>` and its identifier as `@name`; import queries capture the module node as
/// `@import`, with an optional `@callee` used to keep only real import calls.
pub struct Grammar {
    key: String,
    language: tree_sitter::Language,
    symbols: GrammarQuery,
    imports: GrammarQuery,
    import_callees: Vec<String>,
}

impl Grammar {
    #[verifier::type_invariant]
    spec fn queries_match(&self) -> bool {
        self.symbols.key@ == self.key@ && self.imports.key@ == self.key@
    }

    /// The grammar's name, as [`grammar_key`] gives it.
    pub closed spec fn key(&self) -> Seq<char> {
        self.key@
    }

    /// The source text of the symbols query.
    pub closed spec fn symbols_query(&self) -> Seq<char> {
        self.symbols.text@
    }

    /// The source text of the imports query.
    pub closed spec fn imports_query(&self) -> Seq<char> {
        self.imports.text@
    }

    /// The import-call function names kept; empty means no callee filter.
    pub closed spec fn callees(&self) -> Seq<Seq<char>> {
        callee_texts(self.import_callees@)
    }

    /// The grammar's name.
    pub fn name(&self) -> (r: &str)
        ensures
            r@ == self.key(),
    {
        self.key.as_str()
    }
}

/// Why a grammar's query did not compile: the grammar, which query, and tree-sitter's error.
pub struct BuildError {
    pub language: String,
    pub which: String,
    pub source: tree_sitter::QueryError,
}

/// Every grammar the indexer supports, by name.
pub struct Registry {
    grammars: Vec<Grammar>,
}

impl Registry {
    /// The grammars' names, in order.
    pub closed spec fn keys(&self) -> Seq<Seq<char>> {
        self.grammars@.map_values(|g: Grammar| g.key@)
    }

    /// The grammar named `key`.
    pub fn get(&self, key: &str) -> (r: Option<&Grammar>)
        ensures
            match r {
                Some(g) => g.key() == key@,
                None => !self.keys().contains(key@),
            },
    {
        let mut i: usize = 0;
        while i < self.grammars.len()
            invariant
                i <= self.grammars@.len(),
                forall|j: int| 0 <= j < i ==> (#[trigger] self.grammars@[j]).key@ != key@,
            decreases self.grammars.len() - i,
        {
            if str_equal(self.grammars[i].key.as_str(), key) {
                return Some(&self.grammars[i]);
            }
            i = i + 1;
        }
        proof {
            if self.keys().contains(key@) {
                let j = choose|j: int| 0 <= j < self.keys().len() && self.keys()[j] == key@;
                assert(self.grammars@[j].key@ == key@);
            }
        }
        None
    }
}

/// The grammars' names, in the order [`registry`] builds them.
pub open spec fn grammar_names() -> Seq<Seq<char>> {
    seq![
        "Rust"@,
        "Go"@,
        "Python"@,
        "JavaScript"@,
        "TypeScript"@,
        "TSX"@,
        "C"@,
        "C++"@,
        "Java"@,
        "C#"@,
        "Ruby"@,
        "PHP"@,
    ]
}

/// `tree_sitter_rust::LANGUAGE`.
#[verifier::external_body]
fn rust_language() -> tree_sitter::Language {
    tree_sitter_rust::LANGUAGE.into()
}

/// `tree_sitter_go::LANGUAGE`.
#[verifier::external_body]
fn go_language() -> tree_sitter::Language {
    tree_sitter_go::LANGUAGE.into()
}

/// `tree_sitter_python::LANGUAGE`.
#[verifier::external_body]
fn python_language() -> tree_sitter::Language {
    tree_sitter_python::LANGUAGE.into()
}

/// `tree_sitter_javascript::LANGUAGE`.
#[verifier::external_body]
fn javascript_language() -> tree_sitter::Language {
    tree_sitter_javascript::LANGUAGE.into()
}

/// `tree_sitter_typescript::LANGUAGE_TYPESCRIPT`.
#[verifier::external_body]
fn typescript_language() -> tree_sitter::Language {
    tree_sitter_typescript::LANGUAGE_TYPESCRIPT.into()
}

/// `tree_sitter_typescript::LANGUAGE_TSX`.
#[verifier::external_body]
fn tsx_language() -> tree_sitter::Language {
    tree_sitter_typescript::LANGUAGE_TSX.into()
}

/// `tree_sitter_c::LANGUAGE`.
#[verifier::external_body]
fn c_language() -> tree_sitter::Language {
    tree_sitter_c::LANGUAGE.into()
}

/// `tree_sitter_cpp::LANGUAGE`.
#[verifier::external_body]
fn cpp_language() -> tree_sitter::Language {
    tree_sitter_cpp::LANGUAGE.into()
}

/// `tree_sitter_java::LANGUAGE`.
#[verifier::external_body]
fn java_language() -> tree_sitter::Language {
    tree_sitter_java::LANGUAGE.into()
}

/// `tree_sitter_c_sharp::LANGUAGE`.
#[verifier::external_body]
fn csharp_language() -> tree_sitter::Language {
    tree_sitter_c_sharp::LANGUAGE.into()
}

/// `tree_sitter_ruby::LANGUAGE`.
#[verifier::external_body]
fn ruby_language() -> tree_sitter::Language {
    tree_sitter_ruby::LANGUAGE.into()
}

/// `tree_sitter_php::LANGUAGE_PHP`.
#[verifier::external_body]
fn php_language() -> tree_sitter::Language {
    tree_sitter_php::LANGUAGE_PHP.into()
}

/// `tree_sitter::Query::new`: compile the query `source` for `language`. Nothing is claimed of
/// when it fails.
#[verifier::external_body]
fn compile_query(language: &tree_sitter::Language, source: &str) -> Result<tree_sitter::Query, tree_sitter::QueryError> {
    tree_sitter::Query::new(language, source)
}

/// Owned copies of `items`.
fn owned_strings(items: &[&str]) -> (r: Vec<String>)
    ensures
        r@.len() == items@.len(),
        forall|i: int| 0 <= i < items@.len() ==> (#[trigger] r@[i])@ == items@[i]@,
{
    let mut out: Vec<String> = Vec::new();
    let mut i: usize = 0;
    while i < items.len()
        invariant
            i <= items@.len(),
            out@.len() == i,
            forall|j: int| 0 <= j < i ==> (#[trigger] out@[j])@ == items@[j]@,
        decreases items.len() - i,
    {
        out.push(String::from_str(items[i]));
        i = i + 1;
    }
    out
}

/// Compile one grammar's queries and add it to `grammars`.
fn add_grammar(
    grammars: &mut Vec<Grammar>,
    name: &str,
    language: tree_sitter::Language,
    symbols: &str,
    imports: &str,
    callees: &[&str],
) -> (r: Result<(), BuildError>)
    ensures
        r is Ok ==> final(grammars)@.map_values(|g: Grammar| g.key@) == old(grammars)@.map_values(
            |g: Grammar| g.key@,
        ).push(name@),
        r matches Err(e) ==> e.language@ == name@,
{
    let symbols_query = match compile_query(&language, symbols) {
        Ok(q) => q,
        Err(source) => {
            return Err(BuildError { language: String::from_str(name), which: String::from_str("symbols"), source });
        },
    };
    let imports_query = match compile_query(&language, imports) {
        Ok(q) => q,
        Err(source) => {
            return Err(BuildError { language: String::from_str(name), which: String::from_str("imports"), source });
        },
    };
    let g = Grammar {
        key: String::from_str(name),
        language,
        symbols: GrammarQuery { query: symbols_query, key: String::from_str(name), text: String::from_str(symbols) },
        imports: GrammarQuery { query: imports_query, key: String::from_str(name), text: String::from_str(imports) },
        import_callees: owned_strings(callees),
    };
    grammars.push(g);
    assert(final(grammars)@.map_values(|g: Grammar| g.key@) =~= old(grammars)@.map_values(|g: Grammar| g.key@).push(name@));
    Ok(())
}

/// Build every grammar once, in the order of [`grammar_names`]. Fails where tree-sitter refuses
/// a query.
pub fn registry() -> (r: Result<Registry, BuildError>)
    ensures
        r matches Ok(reg) ==> reg.keys() == grammar_names(),
{
    let mut v: Vec<Grammar> = Vec::new();
    let no_callee: [&str; 0] = [];
    let js_callees = ["require"];
    let ruby_callees = ["require", "require_relative", "load"];
    if let Err(e) = add_grammar(&mut v, "Rust", rust_language(), RUST_SYMBOLS, RUST_IMPORTS, &no_callee) {
        return Err(e);
    }
    if let Err(e) = add_grammar(&mut v, "Go", go_language(), GO_SYMBOLS, GO_IMPORTS, &no_callee) {
        return Err(e);
    }
    if let Err(e) = add_grammar(&mut v, "Python", python_language(), PYTHON_SYMBOLS, PYTHON_IMPORTS, &no_callee) {
        return Err(e);
    }
    if let Err(e) = add_grammar(&mut v, "JavaScript", javascript_language(), JS_SYMBOLS, JS_IMPORTS, &js_callees) {
        return Err(e);
    }
    if let Err(e) = add_grammar(&mut v, "TypeScript", typescript_language(), TS_SYMBOLS, JS_IMPORTS, &js_callees) {
        return Err(e);
    }
    if let Err(e) = add_grammar(&mut v, "TSX", tsx_language(), TS_SYMBOLS, JS_IMPORTS, &js_callees) {
        return Err(e);
    }
    if let Err(e) = add_grammar(&mut v, "C", c_language(), C_SYMBOLS, C_IMPORTS, &no_callee) {
        return Err(e);
    }
    if let Err(e) = add_grammar(&mut v, "C++", cpp_language(), CPP_SYMBOLS, C_IMPORTS, &no_callee) {
        return Err(e);
    }
    if let Err(e) = add_grammar(&mut v, "Java", java_language(), JAVA_SYMBOLS, JAVA_IMPORTS, &no_callee) {
        return Err(e);
    }
    if let Err(e) = add_grammar(&mut v, "C#", csharp_language(), CSHARP_SYMBOLS, CSHARP_IMPORTS, &no_callee) {
        return Err(e);
    }
    if let Err(e) = add_grammar(&mut v, "Ruby", ruby_language(), RUBY_SYMBOLS, RUBY_IMPORTS, &ruby_callees) {
        return Err(e);
    }
    if let Err(e) = add_grammar(&mut v, "PHP", php_language(), PHP_SYMBOLS, PHP_IMPORTS, &no_callee) {
        return Err(e);
    }
    let reg = Registry { grammars: v };
    assert(reg.keys() =~= grammar_names());
    Ok(reg)
}

/// A parse tree of `source` made with the grammar named `key`.
pub struct SyntaxTree {
    tree: tree_sitter::Tree,
    key: String,
    source: String,
}

impl SyntaxTree {
    /// The name of the grammar the tree was parsed with.
    pub closed spec fn key(&self) -> Seq<char> {
        self.key@
    }

    /// The text that was parsed.
    pub closed spec fn source(&self) -> Seq<char> {
        self.source@
    }
}

/// The matches, in the order tree-sitter's `QueryCursor::matches` reports them, of the query
/// with source text `query`, compiled for the language [`registry`] gives the grammar named
/// `grammar`, over the parse of `source` with that language; each capture as its name, its
/// node's text and its rows.
pub uninterp spec fn ts_query_matches(grammar: Seq<char>, query: Seq<char>, source: Seq<char>) -> Seq<QueryMatch>;

/// The nodes of the parse of `source` with the language [`registry`] gives the grammar named
/// `grammar`, in preorder.
pub uninterp spec fn ts_preorder(grammar: Seq<char>, source: Seq<char>) -> Seq<TreeNode>;

/// `tree_sitter::Parser::parse` of `source` with `g`'s language, without a time limit. Claimed:
/// a tree it gives is of `source` under `g`. Whether it gives one is left unsaid (tree-sitter
/// gives none where the language's version does not match the library's).
#[verifier::external_body]
fn parse_whole(g: &Grammar, source: &str) -> (r: Option<SyntaxTree>)
    ensures
        r matches Some(t) ==> t.key() == g.key() && t.source() == source@,
{
    let mut parser = tree_sitter::Parser::new();
    parser.set_language(&g.language).ok()?;
    let tree = parser.parse(source, None)?;
    Some(SyntaxTree { tree, key: g.key.clone(), source: source.to_string() })
}

/// Whether a parse that has run `elapsed_nanos` has used up a budget of `limit_nanos`.
fn budget_spent(elapsed_nanos: u128, limit_nanos: u64) -> (r: bool)
    ensures
        r == (elapsed_nanos >= limit_nanos),
{
    elapsed_nanos >= limit_nanos as u128
}

/// The bytes of `bytes` from `at` on; none past its end.
fn bytes_from<'a>(bytes: &'a [u8], at: usize) -> (r: &'a [u8])
    ensures
        r@ == (if at <= bytes@.len() { bytes@.subrange(at as int, bytes@.len() as int) } else { Seq::<u8>::empty() }),
{
    let n = bytes.len();
    if at <= n {
        vstd::slice::slice_subrange(bytes, at, n)
    } else {
        let r = vstd::slice::slice_subrange(bytes, n, n);
        assert(r@ =~= Seq::<u8>::empty());
        r
    }
}

/// `tree_sitter::Parser::parse_with_options` of `source` with `g`'s language, cancelled once
/// it has run `limit_nanos` nanoseconds. Claimed: a tree it gives is of `source` under `g`.
/// Whether it gives one depends on the clock and is left unsaid.
#[verifier::external_body]
fn parse_within(g: &Grammar, source: &str, limit_nanos: u64) -> (r: Option<SyntaxTree>)
    ensures
        r matches Some(t) ==> t.key() == g.key() && t.source() == source@,
{
    let mut parser = tree_sitter::Parser::new();
    parser.set_language(&g.language).ok()?;
    let start = std::time::Instant::now();
    let mut spent = |_: &tree_sitter::ParseState| budget_spent(start.elapsed().as_nanos(), limit_nanos);
    let mut input = |at: usize, _: tree_sitter::Point| bytes_from(source.as_bytes(), at);
    let options = tree_sitter::ParseOptions::new().progress_callback(&mut spent);
    let tree = parser.parse_with_options(&mut input, None, Some(options))?;
    Some(SyntaxTree { tree, key: g.key.clone(), source: source.to_string() })
}

/// `tree_sitter::QueryCursor::matches` of `q` over the tree `t`, each capture taken as its name,
/// its node's text (none where it is not UTF-8) and its rows. The contract names the result.
#[verifier::external_body]
fn run_query(q: &GrammarQuery, t: &SyntaxTree) -> (r: Vec<QueryMatch>)
    requires
        q.key@ == t.key@,
    ensures
        r@ == ts_query_matches(t.key(), q.text@, t.source()),
{
    let (bytes, names) = (t.source.as_bytes(), q.query.capture_names());
    let mut cursor = tree_sitter::QueryCursor::new();
    let mut matches = cursor.matches(&q.query, t.tree.root_node(), bytes);
    let mut out = Vec::new();
    while let Some(m) = matches.next() {
        let captures = m.captures.iter().map(|c| Capture {
            name: names[c.index as usize].to_string(),
            text: c.node.utf8_text(bytes).ok().map(str::to_string),
            start_row: c.node.start_position().row as u32,
            end_row: c.node.end_position().row as u32,
        }).collect();
        out.push(QueryMatch { captures });
    }
    out
}

/// The nodes of the tree `t` in preorder, through `TreeCursor::goto_descendant`, each with the
/// kind of its parent (`Node::parent`). The contract names the result.
#[verifier::external_body]
pub(crate) fn tree_nodes(t: &SyntaxTree) -> (r: Vec<TreeNode>)
    ensures
        r@ == ts_preorder(t.key(), t.source()),
{
    let mut cursor = t.tree.walk();
    let count = t.tree.root_node().descendant_count();
    let mut out = Vec::with_capacity(count);
    for i in 0..count {
        cursor.goto_descendant(i);
        let n = cursor.node();
        let parent = n.parent().map(|p| p.kind().to_string()).unwrap_or_default();
        let (kind, start, end) = (n.kind().to_string(), n.start_byte(), n.end_byte());
        let (named, extra, child_count, descendant_count) = (n.is_named(), n.is_extra(), n.child_count(), n.descendant_count());
        out.push(TreeNode { kind, named, extra, start, end, child_count, descendant_count, parent });
    }
    out
}

/// Whether every capture row of `ms` leaves room for the 1-based line after it.
fn matches_fit(ms: &Vec<QueryMatch>) -> (r: bool)
    ensures
        r == rows_fit(ms@),
{
    let mut i: usize = 0;
    while i < ms.len()
        invariant
            i <= ms@.len(),
            forall|a: int, b: int| 0 <= a < i && 0 <= b < ms@[a].captures@.len() ==> (#[trigger] ms@[a].captures@[b]).start_row
                < u32::MAX && ms@[a].captures@[b].end_row < u32::MAX,
        decreases ms.len() - i,
    {
        let cs = &ms[i].captures;
        let mut j: usize = 0;
        while j < cs.len()
            invariant
                i < ms@.len(),
                cs@ == ms@[i as int].captures@,
                j <= cs@.len(),
                forall|a: int, b: int| 0 <= a < i && 0 <= b < ms@[a].captures@.len() ==> (#[trigger] ms@[a].captures@[b]).start_row
                    < u32::MAX && ms@[a].captures@[b].end_row < u32::MAX,
                forall|b: int| 0 <= b < j ==> (#[trigger] cs@[b]).start_row < u32::MAX && cs@[b].end_row < u32::MAX,
            decreases cs.len() - j,
        {
            if cs[j].start_row == u32::MAX || cs[j].end_row == u32::MAX {
                assert(ms@[i as int].captures@[j as int] == cs@[j as int]);
                return false;
            }
            j = j + 1;
        }
        i = i + 1;
    }
    true
}

/// What a parse of `source` with grammar `g` gives: the symbols and imports the grammar's
/// queries match, each sorted and once, and the token spans of the leaves of the parse tree.
pub open spec fn parse_result(p: Parsed, g: Grammar, source: Seq<char>) -> bool {
    let sm = ts_query_matches(g.key(), g.symbols_query(), source);
    let im = ts_query_matches(g.key(), g.imports_query(), source);
    let src = encode_utf8(source);
    &&& rows_fit(sm) && rows_fit(im)
    &&& symbols_sorted(symbol_keys(p.symbols@))
    &&& symbol_keys(p.symbols@).to_set() == symbols_of(sm).to_set()
    &&& imports_sorted(import_keys(p.imports@))
    &&& import_keys(p.imports@).to_set() == imports_of(im, g.callees()).to_set()
    &&& sorted_first_by_start(p.tokens@, tree_spans(ts_preorder(g.key(), source), src))
    &&& src.len() <= u32::MAX ==> forall|k: int| 0 <= k < p.tokens@.len() ==> #[trigger] p.tokens@[k].start
        + p.tokens@[k].len <= src.len()
}

/// Parse `source` with `g` and pull out symbols, imports and token spans. `budget_nanos` caps
/// the parse time; a parse that runs past it is abandoned and this gives `None`, as it does
/// where a capture sits on a row with no 1-based `u32` line after it.
pub fn parse(g: &Grammar, source: &str, budget_nanos: Option<u64>) -> (r: Option<Parsed>)
    ensures
        !(rows_fit(ts_query_matches(g.key(), g.symbols_query(), source@)) && rows_fit(
            ts_query_matches(g.key(), g.imports_query(), source@),
        )) ==> r is None,
        r matches Some(p) ==> parse_result(p, *g, source@),
{
    proof {
        use_type_invariant(g);
    }
    let parsed = match budget_nanos {
        None => parse_whole(g, source),
        Some(limit) => parse_within(g, source, limit),
    };
    let tree = match parsed {
        Some(t) => t,
        None => {
            return None;
        },
    };
    let symbol_matches = run_query(&g.symbols, &tree);
    let import_matches = run_query(&g.imports, &tree);
    if !matches_fit(&symbol_matches) || !matches_fit(&import_matches) {
        return None;
    }
    let nodes = tree_nodes(&tree);
    let leaves = leaves_of(&nodes, source);
    let p = parsed_from(&symbol_matches, &import_matches, &g.import_callees, &leaves, source);
    proof {
        lemma_leaves_spans(leaves@, nodes@, encode_utf8(source@));
    }
    Some(p)
}

pub const RUST_SYMBOLS: &'static str = r#"
(function_item name: (identifier) @name) @def.function
(struct_item name: (type_identifier) @name) @def.struct
(enum_item name: (type_identifier) @name) @def.enum
(union_item name: (type_identifier) @name) @def.struct
(trait_item name: (type_identifier) @name) @def.trait
(mod_item name: (identifier) @name) @def.module
(macro_definition name: (identifier) @name) @def.macro
(type_item name: (type_identifier) @name) @def.type
(const_item name: (identifier) @name) @def.constant
(static_item name: (identifier) @name) @def.constant
"#;

pub const RUST_IMPORTS: &'static str = r#"
(use_declaration
  [(identifier) (scoped_identifier) (use_as_clause) (use_list) (scoped_use_list) (use_wildcard)] @import)
"#;

pub const GO_SYMBOLS: &'static str = r#"
(function_declaration name: (identifier) @name) @def.function
(method_declaration name: (field_identifier) @name) @def.method
(type_spec name: (type_identifier) @name) @def.type
"#;

pub const GO_IMPORTS: &'static str = r#"
(import_spec path: (interpreted_string_literal) @import)
"#;

pub const PYTHON_SYMBOLS: &'static str = r#"
(function_definition name: (identifier) @name) @def.function
(class_definition name: (identifier) @name) @def.class
"#;

pub const PYTHON_IMPORTS: &'static str = r#"
(import_statement name: (dotted_name) @import)
(import_statement name: (aliased_import name: (dotted_name) @import))
(import_from_statement module_name: (dotted_name) @import)
(import_from_statement module_name: (relative_import) @import)
"#;

pub const JS_SYMBOLS: &'static str = r#"
(function_declaration name: (identifier) @name) @def.function
(generator_function_declaration name: (identifier) @name) @def.function
(class_declaration name: (identifier) @name) @def.class
(method_definition name: (property_identifier) @name) @def.method
"#;

pub const JS_IMPORTS: &'static str = r#"
(import_statement source: (string (string_fragment) @import))
(call_expression
  function: (identifier) @callee
  arguments: (arguments (string (string_fragment) @import)))
"#;

pub const TS_SYMBOLS: &'static str = r#"
(function_declaration name: (identifier) @name) @def.function
(class_declaration name: (type_identifier) @name) @def.class
(abstract_class_declaration name: (type_identifier) @name) @def.class
(method_definition name: (property_identifier) @name) @def.method
(interface_declaration name: (type_identifier) @name) @def.interface
(type_alias_declaration name: (type_identifier) @name) @def.type
(enum_declaration name: (identifier) @name) @def.enum
"#;

pub const C_SYMBOLS: &'static str = r#"
(function_definition declarator: (function_declarator declarator: (identifier) @name)) @def.function
(struct_specifier name: (type_identifier) @name) @def.struct
(enum_specifier name: (type_identifier) @name) @def.enum
(type_definition declarator: (type_identifier) @name) @def.type
"#;

pub const C_IMPORTS: &'static str = r#"
(preproc_include path: (system_lib_string) @import)
(preproc_include path: (string_literal) @import)
"#;

pub const CPP_SYMBOLS: &'static str = r#"
(function_definition declarator: (function_declarator declarator: (identifier) @name)) @def.function
(function_definition declarator: (function_declarator declarator: (field_identifier) @name)) @def.method
(function_definition declarator: (function_declarator declarator: (qualified_identifier) @name)) @def.method
(class_specifier name: (type_identifier) @name) @def.class
(struct_specifier name: (type_identifier) @name) @def.struct
(enum_specifier name: (type_identifier) @name) @def.enum
(namespace_definition name: (namespace_identifier) @name) @def.namespace
"#;

pub const JAVA_SYMBOLS: &'static str = r#"
(class_declaration name: (identifier) @name) @def.class
(interface_declaration name: (identifier) @name) @def.interface
(enum_declaration name: (identifier) @name) @def.enum
(record_declaration name: (identifier) @name) @def.class
(method_declaration name: (identifier) @name) @def.method
(constructor_declaration name: (identifier) @name) @def.method
"#;

pub const JAVA_IMPORTS: &'static str = r#"
(import_declaration (scoped_identifier) @import)
(import_declaration (identifier) @import)
"#;

pub const CSHARP_SYMBOLS: &'static str = r#"
(class_declaration name: (identifier) @name) @def.class
(interface_declaration name: (identifier) @name) @def.interface
(struct_declaration name: (identifier) @name) @def.struct
(enum_declaration name: (identifier) @name) @def.enum
(record_declaration name: (identifier) @name) @def.class
(method_declaration name: (identifier) @name) @def.method
"#;

pub const CSHARP_IMPORTS: &'static str = r#"
(using_directive (qualified_name) @import)
(using_directive (identifier) @import)
"#;

pub const RUBY_SYMBOLS: &'static str = r#"
(method name: (identifier) @name) @def.method
(singleton_method name: (identifier) @name) @def.method
(class name: (constant) @name) @def.class
(class name: (scope_resolution) @name) @def.class
(module name: (constant) @name) @def.module
"#;

pub const RUBY_IMPORTS: &'static str = r#"
(call
  method: (identifier) @callee
  arguments: (argument_list (string (string_content) @import)))
"#;

pub const PHP_SYMBOLS: &'static str = r#"
(function_definition name: (name) @name) @def.function
(method_declaration name: (name) @name) @def.method
(class_declaration name: (name) @name) @def.class
(interface_declaration name: (name) @name) @def.interface
(trait_declaration name: (name) @name) @def.trait
(enum_declaration name: (name) @name) @def.enum
"#;

pub const PHP_IMPORTS: &'static str = r#"
(namespace_use_clause (qualified_name) @import)
(namespace_use_clause (name) @import)
"#;

} // verus!

//! Token classes for syntax coloring, decided per parse-tree leaf at index time so the renderer
//! ships no parsers.
//!
//! Rather than a highlights query per language, leaves of the parse tree are classified by node
//! kind. Grammars name their nodes consistently enough (`line_comment`, `string_literal`,
//! `integer_literal`, `type_identifier`, ...) that one classifier covers every grammar. Anonymous
//! leaves are the grammar's literal tokens: alphabetic ones are keywords, the rest are operators
//! or punctuation.

use vstd::prelude::*;
use vstd::utf8::{decode_utf8, encode_utf8, valid_utf8};
use crate::strings::{chars_equal, chars_of, string_from_utf8};
use crate::grammars::{tree_nodes, ts_preorder, SyntaxTree};
use crate::text::TokenSpan;

verus! {

/// What a run of source bytes is, for coloring. Stored in `.ftx` tiles as a u8.
#[derive(Debug, Clone, Copy, PartialEq, Eq, Structural)]
pub enum TokenClass {
    Other,
    Keyword,
    String,
    Comment,
    Number,
    Type,
    Function,
    Variable,
    Operator,
    Punctuation,
}

/// The byte each class is stored as.
pub open spec fn class_code(c: TokenClass) -> u8 {
    match c {
        TokenClass::Other => 0,
        TokenClass::Keyword => 1,
        TokenClass::String => 2,
        TokenClass::Comment => 3,
        TokenClass::Number => 4,
        TokenClass::Type => 5,
        TokenClass::Function => 6,
        TokenClass::Variable => 7,
        TokenClass::Operator => 8,
        TokenClass::Punctuation => 9,
    }
}

impl TokenClass {
    pub fn as_u8(self) -> (r: u8)
        ensures
            r == class_code(self),
    {
        match self {
            TokenClass::Other => 0,
            TokenClass::Keyword => 1,
            TokenClass::String => 2,
            TokenClass::Comment => 3,
            TokenClass::Number => 4,
            TokenClass::Type => 5,
            TokenClass::Function => 6,
            TokenClass::Variable => 7,
            TokenClass::Operator => 8,
            TokenClass::Punctuation => 9,
        }
    }
}

/// Whether `needle` occurs in `hay`.
pub open spec fn has_infix(hay: Seq<char>, needle: Seq<char>) -> bool {
    exists|i: int| 0 <= i && i + needle.len() <= hay.len() && #[trigger] hay.subrange(i, i + needle.len()) == needle
}

/// Whether `hay` ends with `needle`.
pub open spec fn has_suffix(hay: Seq<char>, needle: Seq<char>) -> bool {
    needle.len() <= hay.len() && hay.subrange(hay.len() - needle.len(), hay.len() as int) == needle
}

/// Whether `hay[i..]` starts with `needle`.
fn matches_at(hay: &Vec<char>, i: usize, needle: &Vec<char>) -> (r: bool)
    requires
        i + needle@.len() <= hay@.len(),
    ensures
        r == (hay@.subrange(i as int, i + needle@.len()) == needle@),
{
    let hl = hay.len();
    let mut k: usize = 0;
    while k < needle.len()
        invariant
            k <= needle@.len(),
            hl == hay@.len(),
            i + needle@.len() <= hay@.len(),
            forall|j: int| 0 <= j < k ==> hay@[i + j] == needle@[j],
        decreases needle.len() - k,
    {
        if hay[i + k] != needle[k] {
            assert(hay@.subrange(i as int, i + needle@.len())[k as int] != needle@[k as int]);
            return false;
        }
        k = k + 1;
    }
    assert(hay@.subrange(i as int, i + needle@.len()) =~= needle@);
    true
}

/// Whether `needle` occurs in `hay`.
pub fn contains_text(hay: &Vec<char>, needle: &str) -> (r: bool)
    ensures
        r == has_infix(hay@, needle@),
{
    let nd = chars_of(needle);
    if nd.len() > hay.len() {
        return false;
    }
    if nd.len() == 0 {
        assert(hay@.subrange(0, 0 + needle@.len() as int) =~= needle@);
        return true;
    }
    let hl = hay.len();
    let last = hl - nd.len();
    let mut i: usize = 0;
    while i <= last
        invariant
            nd@ == needle@,
            hl == hay@.len(),
            nd@.len() >= 1,
            last + nd@.len() == hay@.len(),
            forall|j: int| 0 <= j < i ==> #[trigger] hay@.subrange(j, j + nd@.len()) != nd@,
        decreases last + 1 - i,
    {
        if matches_at(hay, i, &nd) {
            return true;
        }
        i = i + 1;
    }
    false
}

/// Whether `hay` ends with `needle`.
pub fn ends_with_text(hay: &Vec<char>, needle: &str) -> (r: bool)
    ensures
        r == has_suffix(hay@, needle@),
{
    let nd = chars_of(needle);
    if nd.len() > hay.len() {
        return false;
    }
    matches_at(hay, hay.len() - nd.len(), &nd)
}

/// Unicode `Alphabetic`, the property `char::is_alphabetic` tests.
pub uninterp spec fn unicode_alphabetic(c: char) -> bool;

/// `char::is_alphabetic`. The contract names the Unicode property and says nothing more of it.
#[verifier::external_body]
fn is_alphabetic(c: char) -> (r: bool)
    ensures
        r == unicode_alphabetic(c),
{
    c.is_alphabetic()
}

/// The characters that make an anonymous token punctuation: `()[]{},;:.`.
pub open spec fn punctuation_char(c: char) -> bool {
    c == '(' || c == ')' || c == '[' || c == ']' || c == '{' || c == '}' || c == ',' || c == ';'
        || c == ':' || c == '.'
}

/// Nodes colored as a single run, children and all: comments, strings, character literals.
pub open spec fn atomic_kind(kind: Seq<char>) -> bool {
    has_infix(kind, "comment"@) || has_infix(kind, "string"@) || has_infix(kind, "char_literal"@)
}

/// Whether a node of `kind` is colored as one run, children and all.
pub fn is_atomic(kind: &str) -> (r: bool)
    ensures
        r == atomic_kind(kind@),
{
    let k = chars_of(kind);
    contains_text(&k, "comment") || contains_text(&k, "string") || contains_text(&k, "char_literal")
}

/// The class of a leaf of kind `kind`, named or anonymous, spelled `text` in the source, whose
/// parent (if any) is of kind `parent`.
pub open spec fn leaf_class(kind: Seq<char>, named: bool, text: Seq<char>, parent: Seq<char>) -> TokenClass {
    if has_infix(kind, "comment"@) {
        TokenClass::Comment
    } else if has_infix(kind, "string"@) || has_infix(kind, "char"@) || kind == "heredoc_body"@ {
        TokenClass::String
    } else if has_infix(kind, "number"@) || has_infix(kind, "integer"@) || has_infix(kind, "float"@)
        || has_infix(kind, "decimal"@) {
        TokenClass::Number
    } else if !named {
        if text.len() > 0 && forall|i: int| 0 <= i < text.len() ==> unicode_alphabetic(#[trigger] text[i]) || text[i] == '_' {
            TokenClass::Keyword
        } else if forall|i: int| 0 <= i < text.len() ==> punctuation_char(#[trigger] text[i]) {
            TokenClass::Punctuation
        } else {
            TokenClass::Operator
        }
    } else if has_infix(kind, "type"@) || kind == "constant"@ || kind == "primitive_type"@ {
        TokenClass::Type
    } else if has_suffix(kind, "identifier"@) || kind == "name"@ || kind == "word"@ {
        if has_infix(parent, "call"@) || has_infix(parent, "function"@) || has_infix(parent, "method"@) {
            TokenClass::Function
        } else {
            TokenClass::Variable
        }
    } else if kind == "true"@ || kind == "false"@ || kind == "null"@ || kind == "nil"@ {
        TokenClass::Keyword
    } else {
        TokenClass::Other
    }
}

/// Whether every character of `text` is alphabetic or `_`.
fn all_word_chars(text: &Vec<char>) -> (r: bool)
    ensures
        r == forall|i: int| 0 <= i < text@.len() ==> unicode_alphabetic(#[trigger] text@[i]) || text@[i] == '_',
{
    let mut i: usize = 0;
    while i < text.len()
        invariant
            i <= text@.len(),
            forall|k: int| 0 <= k < i ==> unicode_alphabetic(#[trigger] text@[k]) || text@[k] == '_',
        decreases text.len() - i,
    {
        let c = text[i];
        if !(is_alphabetic(c) || c == '_') {
            return false;
        }
        i = i + 1;
    }
    true
}

/// Whether every character of `text` is punctuation.
fn all_punctuation(text: &Vec<char>) -> (r: bool)
    ensures
        r == forall|i: int| 0 <= i < text@.len() ==> punctuation_char(#[trigger] text@[i]),
{
    let mut i: usize = 0;
    while i < text.len()
        invariant
            i <= text@.len(),
            forall|k: int| 0 <= k < i ==> punctuation_char(#[trigger] text@[k]),
        decreases text.len() - i,
    {
        let c = text[i];
        if !(c == '(' || c == ')' || c == '[' || c == ']' || c == '{' || c == '}' || c == ','
            || c == ';' || c == ':' || c == '.') {
            return false;
        }
        i = i + 1;
    }
    true
}

/// Classify one leaf: its node kind, whether the grammar names it, its source text, and the kind
/// of its parent (empty where it has none).
pub fn classify(kind: &str, named: bool, text: &str, parent: &str) -> (r: TokenClass)
    ensures
        r == leaf_class(kind@, named, text@, parent@),
{
    let k = chars_of(kind);
    if contains_text(&k, "comment") {
        return TokenClass::Comment;
    }
    if contains_text(&k, "string") || contains_text(&k, "char") || chars_equal(&k, "heredoc_body") {
        return TokenClass::String;
    }
    if contains_text(&k, "number") || contains_text(&k, "integer") || contains_text(&k, "float")
        || contains_text(&k, "decimal") {
        return TokenClass::Number;
    }
    if !named {
        let t = chars_of(text);
        return if t.len() > 0 && all_word_chars(&t) {
            TokenClass::Keyword
        } else if all_punctuation(&t) {
            TokenClass::Punctuation
        } else {
            TokenClass::Operator
        };
    }
    if contains_text(&k, "type") || chars_equal(&k, "constant") || chars_equal(&k, "primitive_type") {
        return TokenClass::Type;
    }
    if ends_with_text(&k, "identifier") || chars_equal(&k, "name") || chars_equal(&k, "word") {
        let p = chars_of(parent);
        return if contains_text(&p, "call") || contains_text(&p, "function") || contains_text(&p, "method") {
            TokenClass::Function
        } else {
            TokenClass::Variable
        };
    }
    if chars_equal(&k, "true") || chars_equal(&k, "false") || chars_equal(&k, "null") || chars_equal(&k, "nil") {
        return TokenClass::Keyword;
    }
    TokenClass::Other
}

/// A leaf of the parse tree as the classifier sees it: its byte range in the source, its node
/// kind, whether the grammar names it, whether it is an "extra" (such as a comment the grammar
/// allows anywhere), its source text, and its parent's kind (empty where it has none).
pub struct Leaf {
    pub start: usize,
    pub end: usize,
    pub kind: String,
    pub named: bool,
    pub extra: bool,
    pub text: String,
    pub parent: String,
}

/// The span a leaf contributes: none for an empty range or one past the end of the source, none
/// for an unclassified extra, else its range and class.
pub open spec fn leaf_span(l: Leaf, source_len: int) -> Option<TokenSpan> {
    if l.end <= l.start || l.end > source_len {
        None
    } else {
        let c = leaf_class(l.kind@, l.named, l.text@, l.parent@);
        if c == TokenClass::Other && l.extra {
            None
        } else {
            Some(TokenSpan { start: l.start as u32, len: (l.end - l.start) as u32, class: class_code(c) })
        }
    }
}

/// The spans of `leaves`, in leaf order.
pub open spec fn leaf_spans(leaves: Seq<Leaf>, source_len: int) -> Seq<TokenSpan>
    decreases leaves.len(),
{
    if leaves.len() == 0 {
        seq![]
    } else {
        leaf_spans(leaves.drop_last(), source_len) + match leaf_span(leaves.last(), source_len) {
            Some(sp) => seq![sp],
            None => seq![],
        }
    }
}

/// The index of the first span of `ps` that starts at `start`, or `ps.len()` if none does.
pub open spec fn first_index(ps: Seq<TokenSpan>, start: u32) -> int
    decreases ps.len(),
{
    if ps.len() == 0 {
        0
    } else {
        let f = first_index(ps.drop_last(), start);
        if f < ps.len() - 1 {
            f
        } else if ps.last().start == start {
            ps.len() - 1
        } else {
            ps.len() as int
        }
    }
}

/// Some span of `r` starts at `start`.
pub open spec fn has_start(r: Seq<TokenSpan>, start: u32) -> bool {
    exists|k: int| 0 <= k < r.len() && #[trigger] r[k].start == start
}

/// `r` is `ps` sorted by start with one span per start: the first of `ps` with that start.
pub open spec fn sorted_first_by_start(r: Seq<TokenSpan>, ps: Seq<TokenSpan>) -> bool {
    &&& forall|a: int, b: int| 0 <= a < b < r.len() ==> #[trigger] r[a].start < #[trigger] r[b].start
    &&& forall|k: int| 0 <= k < r.len() ==> first_index(ps, #[trigger] r[k].start) < ps.len()
        && ps[first_index(ps, r[k].start)] == r[k]
    &&& forall|q: int| 0 <= q < ps.len() ==> has_start(r, #[trigger] ps[q].start)
}

proof fn lemma_first_index(ps: Seq<TokenSpan>, start: u32)
    ensures
        0 <= first_index(ps, start) <= ps.len(),
        first_index(ps, start) < ps.len() ==> ps[first_index(ps, start)].start == start,
        forall|q: int| 0 <= q < ps.len() && #[trigger] ps[q].start == start ==> first_index(ps, start) <= q,
    decreases ps.len(),
{
    if ps.len() > 0 {
        lemma_first_index(ps.drop_last(), start);
        assert forall|q: int| 0 <= q < ps.len() && #[trigger] ps[q].start == start implies first_index(ps, start) <= q by {
            if q < ps.len() - 1 {
                assert(ps.drop_last()[q] == ps[q]);
            }
        }
    }
}

proof fn lemma_first_index_push(ps: Seq<TokenSpan>, x: TokenSpan, start: u32)
    ensures
        first_index(ps.push(x), start) == if first_index(ps, start) < ps.len() {
            first_index(ps, start)
        } else if x.start == start {
            ps.len() as int
        } else {
            (ps.len() + 1) as int
        },
{
    assert(ps.push(x).drop_last() =~= ps);
    lemma_first_index(ps, start);
}

/// Keeping the spans unchanged accounts for `x` when a kept span already starts where it does.
proof fn lemma_keep_existing(r: Seq<TokenSpan>, ps: Seq<TokenSpan>, x: TokenSpan, i: int)
    requires
        sorted_first_by_start(r, ps),
        0 <= i < r.len(),
        r[i].start == x.start,
    ensures
        sorted_first_by_start(r, ps.push(x)),
{
    let ps2 = ps.push(x);
    assert forall|k: int| 0 <= k < r.len() implies first_index(ps2, #[trigger] r[k].start) < ps2.len()
        && ps2[first_index(ps2, r[k].start)] == r[k] by {
        lemma_first_index_push(ps, x, r[k].start);
        let f = first_index(ps, r[k].start);
        lemma_first_index(ps, r[k].start);
        assert(f < ps.len() && ps[f] == r[k]);
        assert(ps2[f] == ps[f]);
    }
    assert forall|q: int| 0 <= q < ps2.len() implies has_start(r, #[trigger] ps2[q].start) by {
        if q < ps.len() {
            assert(ps2[q] == ps[q]);
        } else {
            assert(r[i].start == ps2[q].start);
        }
    }
}

/// Inserting `x` where its start belongs accounts for it when no kept span starts there.
proof fn lemma_keep_new(r: Seq<TokenSpan>, ps: Seq<TokenSpan>, x: TokenSpan, i: int)
    requires
        sorted_first_by_start(r, ps),
        0 <= i <= r.len(),
        forall|j: int| 0 <= j < i ==> #[trigger] r[j].start < x.start,
        i < r.len() ==> x.start < r[i].start,
    ensures
        sorted_first_by_start(r.insert(i, x), ps.push(x)),
{
    let ps2 = ps.push(x);
    let after = r.insert(i, x);
    assert forall|k: int| 0 <= k < r.len() implies #[trigger] r[k].start != x.start by {
        if k > i {
            assert(r[i].start < r[k].start);
        }
    }
    assert(!has_start(r, x.start));
    lemma_first_index(ps, x.start);
    if first_index(ps, x.start) < ps.len() {
        assert(has_start(r, ps[first_index(ps, x.start)].start));
    }
    assert forall|a: int, b: int| 0 <= a < b < after.len() implies #[trigger] after[a].start < #[trigger] after[b].start by {
        if a < i && b == i {
        } else if a < i && b > i {
            assert(after[b] == r[b - 1]);
            assert(r[a].start < r[b - 1].start || a == b - 1);
        } else if a == i {
            assert(after[b] == r[b - 1]);
            if b - 1 > i {
                assert(r[i].start < r[b - 1].start);
            }
        } else if a > i {
            assert(after[a] == r[a - 1]);
            assert(after[b] == r[b - 1]);
        }
    }
    assert forall|k: int| 0 <= k < after.len() implies first_index(ps2, #[trigger] after[k].start) < ps2.len()
        && ps2[first_index(ps2, after[k].start)] == after[k] by {
        lemma_first_index_push(ps, x, after[k].start);
        if k != i {
            let k0 = if k < i { k } else { k - 1 };
            assert(after[k] == r[k0]);
            let f = first_index(ps, r[k0].start);
            lemma_first_index(ps, r[k0].start);
            assert(f < ps.len() && ps[f] == r[k0]);
            assert(ps2[f] == ps[f]);
        } else {
            assert(first_index(ps, x.start) == ps.len());
            assert(ps2[ps.len() as int] == x);
        }
    }
    assert forall|q: int| 0 <= q < ps2.len() implies has_start(after, #[trigger] ps2[q].start) by {
        if q < ps.len() {
            assert(ps2[q] == ps[q]);
            assert(has_start(r, ps[q].start));
            let k = choose|k: int| 0 <= k < r.len() && #[trigger] r[k].start == ps[q].start;
            if k < i {
                assert(after[k] == r[k]);
            } else {
                assert(after[k + 1] == r[k]);
            }
        } else {
            assert(after[i] == x);
        }
    }
}

/// Add `x`, the next span of `ps`, to the spans kept so far.
fn keep_first_by_start(r: &mut Vec<TokenSpan>, x: TokenSpan, Ghost(ps): Ghost<Seq<TokenSpan>>)
    requires
        sorted_first_by_start(old(r)@, ps),
    ensures
        sorted_first_by_start(final(r)@, ps.push(x)),
{
    let ghost before = r@;
    let mut i: usize = 0;
    while i < r.len() && r[i].start < x.start
        invariant
            i <= r@.len(),
            r@ == before,
            forall|j: int| 0 <= j < i ==> #[trigger] before[j].start < x.start,
        decreases r@.len() - i,
    {
        i = i + 1;
    }
    if i < r.len() && r[i].start == x.start {
        proof {
            lemma_keep_existing(before, ps, x, i as int);
        }
        return;
    }
    proof {
        lemma_keep_new(before, ps, x, i as int);
    }
    r.insert(i, x);
}

/// The token spans of a file from its parse tree's leaves, in source order: each leaf that
/// contributes a span does so once, and of spans that start at the same byte the first is kept.
pub fn spans_from_leaves(leaves: &Vec<Leaf>, source: &str) -> (r: Vec<TokenSpan>)
    ensures
        sorted_first_by_start(r@, leaf_spans(leaves@, encode_utf8(source@).len() as int)),
        encode_utf8(source@).len() <= u32::MAX ==> forall|k: int| 0 <= k < r@.len() ==> #[trigger] r@[k].start
            + r@[k].len <= encode_utf8(source@).len(),
{
    let source_len = source.as_bytes().len();
    let ghost n = encode_utf8(source@).len() as int;
    let mut r: Vec<TokenSpan> = Vec::new();
    let mut i: usize = 0;
    while i < leaves.len()
        invariant
            i <= leaves@.len(),
            source_len == n,
            sorted_first_by_start(r@, leaf_spans(leaves@.take(i as int), n)),
        decreases leaves.len() - i,
    {
        let ghost before = leaf_spans(leaves@.take(i as int), n);
        proof {
            assert(leaves@.take(i + 1).drop_last() =~= leaves@.take(i as int));
            assert(leaves@.take(i + 1).last() == leaves@[i as int]);
        }
        let l = &leaves[i];
        if l.end > l.start && l.end <= source_len {
            let c = classify(l.kind.as_str(), l.named, l.text.as_str(), l.parent.as_str());
            if !(c == TokenClass::Other && l.extra) {
                let sp = TokenSpan { start: l.start as u32, len: (l.end - l.start) as u32, class: c.as_u8() };
                assert(leaf_span(leaves@[i as int], n) == Some(sp));
                keep_first_by_start(&mut r, sp, Ghost(before));
                assert(leaf_spans(leaves@.take(i + 1), n) =~= before.push(sp));
            } else {
                assert(leaf_spans(leaves@.take(i + 1), n) =~= before);
            }
        } else {
            assert(leaf_spans(leaves@.take(i + 1), n) =~= before);
        }
        i = i + 1;
    }
    assert(leaves@.take(leaves@.len() as int) =~= leaves@);
    proof {
        if n <= u32::MAX {
            lemma_leaf_spans_inside(leaves@, n);
            let ps = leaf_spans(leaves@, n);
            assert forall|k: int| 0 <= k < r@.len() implies #[trigger] r@[k].start + r@[k].len <= n by {
                let f = first_index(ps, r@[k].start);
                lemma_first_index(ps, r@[k].start);
                assert(ps[f] == r@[k]);
            }
        }
    }
    r
}

/// Every span a leaf contributes ends inside a source of `n` bytes.
proof fn lemma_leaf_spans_inside(leaves: Seq<Leaf>, n: int)
    requires
        0 <= n <= u32::MAX,
    ensures
        forall|j: int| 0 <= j < leaf_spans(leaves, n).len() ==> #[trigger] leaf_spans(leaves, n)[j].start
            + leaf_spans(leaves, n)[j].len <= n,
    decreases leaves.len(),
{
    if leaves.len() > 0 {
        lemma_leaf_spans_inside(leaves.drop_last(), n);
        let prev = leaf_spans(leaves.drop_last(), n);
        assert forall|j: int| 0 <= j < leaf_spans(leaves, n).len() implies #[trigger] leaf_spans(leaves, n)[j].start
            + leaf_spans(leaves, n)[j].len <= n by {
            if j < prev.len() {
                assert(leaf_spans(leaves, n)[j] == prev[j]);
            }
        }
    }
}

/// A node of a parse tree, as the tree lists them in preorder: its kind, whether the grammar
/// names it, whether it is an "extra", its byte range, how many children it has, how many nodes
/// its subtree holds (itself included), and its parent's kind (empty for the root).
pub struct TreeNode {
    pub kind: String,
    pub named: bool,
    pub extra: bool,
    pub start: usize,
    pub end: usize,
    pub child_count: usize,
    pub descendant_count: usize,
    pub parent: String,
}

/// Whether the walk takes `n` whole as a leaf: comments and strings are not descended into, and
/// a node without children is a leaf.
pub open spec fn taken_whole(n: TreeNode) -> bool {
    atomic_kind(n.kind@) || n.child_count == 0
}

/// The preorder index the walk visits after `i`: past `i`'s subtree (or the end of `nodes`)
/// where `i` is taken whole, else `i`'s first child.
pub open spec fn next_visit(nodes: Seq<TreeNode>, i: nat) -> nat {
    if taken_whole(nodes[i as int]) && nodes[i as int].descendant_count > 1 {
        if i + nodes[i as int].descendant_count >= nodes.len() {
            nodes.len()
        } else {
            (i + nodes[i as int].descendant_count) as nat
        }
    } else {
        i + 1
    }
}

/// The preorder indices of the leaves the walk takes, starting at node `i`, in source order.
pub open spec fn leaf_indices(nodes: Seq<TreeNode>, i: nat) -> Seq<int>
    decreases nodes.len() - i,
{
    if i >= nodes.len() {
        seq![]
    } else {
        let rest = leaf_indices(nodes, next_visit(nodes, i));
        if taken_whole(nodes[i as int]) {
            seq![i as int] + rest
        } else {
            rest
        }
    }
}

/// The text of the bytes `src[start..end]`, empty where the range is out of bounds or does not
/// fall on character boundaries.
pub open spec fn slice_text(src: Seq<u8>, start: int, end: int) -> Seq<char> {
    if start <= end <= src.len() && valid_utf8(src.subrange(start, end)) {
        decode_utf8(src.subrange(start, end))
    } else {
        seq![]
    }
}

/// `l` is the leaf the walk makes of node `n` of a tree over the source bytes `src`.
pub open spec fn leaf_of_node(l: Leaf, n: TreeNode, src: Seq<u8>) -> bool {
    &&& l.start == n.start && l.end == n.end
    &&& l.kind@ == n.kind@ && l.named == n.named && l.extra == n.extra
    &&& l.parent@ == n.parent@
    &&& l.text@ == slice_text(src, n.start as int, n.end as int)
}

/// `ls` are the leaves the walk takes from the preorder `nodes` of a tree over `src`.
pub open spec fn leaves_of_tree(ls: Seq<Leaf>, nodes: Seq<TreeNode>, src: Seq<u8>) -> bool {
    let idx = leaf_indices(nodes, 0);
    &&& ls.len() == idx.len()
    &&& forall|k: int| 0 <= k < ls.len() ==> 0 <= #[trigger] idx[k] < nodes.len() && leaf_of_node(
        ls[k],
        nodes[idx[k]],
        src,
    )
}

/// The span node `n` of a tree over the source bytes `src` contributes as a leaf: that of the
/// leaf the walk makes of it.
pub open spec fn node_span(n: TreeNode, src: Seq<u8>) -> Option<TokenSpan> {
    if n.end <= n.start || n.end > src.len() {
        None
    } else {
        let c = leaf_class(n.kind@, n.named, slice_text(src, n.start as int, n.end as int), n.parent@);
        if c == TokenClass::Other && n.extra {
            None
        } else {
            Some(TokenSpan { start: n.start as u32, len: (n.end - n.start) as u32, class: class_code(c) })
        }
    }
}

/// The spans of the nodes at `idx`, in that order.
pub open spec fn indexed_spans(nodes: Seq<TreeNode>, idx: Seq<int>, src: Seq<u8>) -> Seq<TokenSpan>
    decreases idx.len(),
{
    if idx.len() == 0 {
        seq![]
    } else {
        indexed_spans(nodes, idx.drop_last(), src) + match node_span(nodes[idx.last()], src) {
            Some(sp) => seq![sp],
            None => seq![],
        }
    }
}

/// The spans of the leaves the walk takes from the preorder `nodes` of a tree over `src`, in
/// source order, before sorting.
pub open spec fn tree_spans(nodes: Seq<TreeNode>, src: Seq<u8>) -> Seq<TokenSpan> {
    indexed_spans(nodes, leaf_indices(nodes, 0), src)
}

/// The spans of the leaves the walk makes are the spans of the tree's nodes it takes.
pub proof fn lemma_leaves_spans(ls: Seq<Leaf>, nodes: Seq<TreeNode>, src: Seq<u8>)
    requires
        leaves_of_tree(ls, nodes, src),
    ensures
        leaf_spans(ls, src.len() as int) == tree_spans(nodes, src),
{
    let idx = leaf_indices(nodes, 0);
    lemma_prefix_spans(ls, nodes, idx, src, ls.len() as int);
    assert(ls.take(ls.len() as int) =~= ls);
    assert(idx.take(idx.len() as int) =~= idx);
}

proof fn lemma_prefix_spans(ls: Seq<Leaf>, nodes: Seq<TreeNode>, idx: Seq<int>, src: Seq<u8>, k: int)
    requires
        ls.len() == idx.len(),
        0 <= k <= ls.len(),
        forall|t: int| 0 <= t < ls.len() ==> 0 <= #[trigger] idx[t] < nodes.len() && leaf_of_node(ls[t], nodes[idx[t]], src),
    ensures
        leaf_spans(ls.take(k), src.len() as int) == indexed_spans(nodes, idx.take(k), src),
    decreases k,
{
    if k == 0 {
        assert(ls.take(0) =~= Seq::<Leaf>::empty());
        assert(idx.take(0) =~= Seq::<int>::empty());
    } else {
        lemma_prefix_spans(ls, nodes, idx, src, k - 1);
        assert(ls.take(k).drop_last() =~= ls.take(k - 1));
        assert(idx.take(k).drop_last() =~= idx.take(k - 1));
        assert(ls.take(k).last() == ls[k - 1]);
        assert(idx.take(k).last() == idx[k - 1]);
        assert(leaf_of_node(ls[k - 1], nodes[idx[k - 1]], src));
        assert(leaf_span(ls[k - 1], src.len() as int) == node_span(nodes[idx[k - 1]], src));
    }
}

proof fn lemma_leaf_indices_bounded(nodes: Seq<TreeNode>, i: nat)
    ensures
        forall|k: int| 0 <= k < leaf_indices(nodes, i).len() ==> i <= #[trigger] leaf_indices(nodes, i)[k]
            < nodes.len(),
    decreases nodes.len() - i,
{
    if i < nodes.len() {
        let nx = next_visit(nodes, i);
        lemma_leaf_indices_bounded(nodes, nx);
        let rest = leaf_indices(nodes, nx);
        let all = leaf_indices(nodes, i);
        if taken_whole(nodes[i as int]) {
            assert(all == seq![i as int] + rest);
            assert forall|k: int| 0 <= k < all.len() implies i <= #[trigger] all[k] < nodes.len() by {
                if k > 0 {
                    assert(all[k] == rest[k - 1]);
                }
            }
        } else {
            assert(all == rest);
        }
    }
}

/// The text of `bytes[start..end]`, or empty text where that is out of range or not UTF-8.
fn text_between(bytes: &[u8], start: usize, end: usize) -> (r: String)
    ensures
        r@ == slice_text(bytes@, start as int, end as int),
{
    if start <= end && end <= bytes.len() {
        let sub = vstd::slice::slice_to_vec(vstd::slice::slice_subrange(bytes, start, end));
        match string_from_utf8(sub) {
            Some(t) => t,
            None => String::new(),
        }
    } else {
        String::new()
    }
}

/// The leaves of a parse tree the classifier colors, in source order, from the tree's nodes in
/// preorder: a comment, a string or a node without children is taken whole, with its text from
/// `source`; other nodes are descended into.
pub fn leaves_of(nodes: &Vec<TreeNode>, source: &str) -> (r: Vec<Leaf>)
    ensures
        leaves_of_tree(r@, nodes@, encode_utf8(source@)),
{
    let bytes = source.as_bytes();
    let n = nodes.len();
    let ghost all = leaf_indices(nodes@, 0);
    let ghost mut taken: Seq<int> = seq![];
    let mut out: Vec<Leaf> = Vec::new();
    let mut i: usize = 0;
    proof {
        lemma_leaf_indices_bounded(nodes@, 0);
    }
    while i < n
        invariant
            n == nodes@.len(),
            i <= n,
            bytes@ == encode_utf8(source@),
            all == leaf_indices(nodes@, 0),
            all == taken + leaf_indices(nodes@, i as nat),
            out@.len() == taken.len(),
            forall|k: int| 0 <= k < taken.len() ==> 0 <= #[trigger] taken[k] < n && leaf_of_node(
                out@[k],
                nodes@[taken[k]],
                bytes@,
            ),
        decreases n - i,
    {
        let node = &nodes[i];
        let whole = is_atomic(node.kind.as_str()) || node.child_count == 0;
        let next = if whole && node.descendant_count > 1 {
            if node.descendant_count >= n - i {
                n
            } else {
                i + node.descendant_count
            }
        } else {
            i + 1
        };
        assert(next == next_visit(nodes@, i as nat));
        if whole {
            let leaf = Leaf {
                start: node.start,
                end: node.end,
                kind: node.kind.clone(),
                named: node.named,
                extra: node.extra,
                text: text_between(bytes, node.start, node.end),
                parent: node.parent.clone(),
            };
            proof {
                assert(taken + leaf_indices(nodes@, i as nat) =~= taken.push(i as int) + leaf_indices(nodes@, next as nat));
                taken = taken.push(i as int);
            }
            out.push(leaf);
        }
        i = next;
    }
    proof {
        assert(taken =~= all);
    }
    out
}

/// The token spans of the parse tree `tree` of `source`, in source order: the spans of the
/// leaves the walk takes, sorted by start and once per start.
pub fn spans(tree: &SyntaxTree, source: &str) -> (r: Vec<TokenSpan>)
    ensures
        sorted_first_by_start(r@, tree_spans(ts_preorder(tree.key(), tree.source()), encode_utf8(source@))),
        encode_utf8(source@).len() <= u32::MAX ==> forall|k: int| 0 <= k < r@.len() ==> #[trigger] r@[k].start
            + r@[k].len <= encode_utf8(source@).len(),
{
    let nodes = tree_nodes(tree);
    let leaves = leaves_of(&nodes, source);
    let r = spans_from_leaves(&leaves, source);
    proof {
        lemma_leaves_spans(leaves@, nodes@, encode_utf8(source@));
    }
    r
}

/// `needle` does not occur in `hay` when one of its characters does not.
proof fn lemma_no_infix(hay: Seq<char>, needle: Seq<char>, k: int)
    requires
        0 <= k < needle.len(),
        forall|j: int| 0 <= j < hay.len() ==> hay[j] != needle[k],
    ensures
        !has_infix(hay, needle),
{
    if has_infix(hay, needle) {
        let i = choose|i: int| 0 <= i && i + needle.len() <= hay.len() && #[trigger] hay.subrange(i, i + needle.len()) == needle;
        assert(hay.subrange(i, i + needle.len())[k] == hay[i + k]);
    }
}

/// Law: a named `identifier` leaf is a function name where its parent's kind mentions a call, a
/// function or a method, and a variable otherwise, whatever its text.
pub proof fn law_identifier_leaves(text: Seq<char>, parent: Seq<char>)
    ensures
        has_infix(parent, "call"@) || has_infix(parent, "function"@) || has_infix(parent, "method"@)
            ==> leaf_class("identifier"@, true, text, parent) == TokenClass::Function,
        !(has_infix(parent, "call"@) || has_infix(parent, "function"@) || has_infix(parent, "method"@))
            ==> leaf_class("identifier"@, true, text, parent) == TokenClass::Variable,
{
    let id = "identifier"@;
    reveal_strlit("identifier");
    reveal_strlit("comment");
    reveal_strlit("string");
    reveal_strlit("char");
    reveal_strlit("number");
    reveal_strlit("integer");
    reveal_strlit("float");
    reveal_strlit("decimal");
    reveal_strlit("type");
    reveal_strlit("heredoc_body");
    reveal_strlit("constant");
    reveal_strlit("primitive_type");
    assert(id.len() == 10);
    assert forall|j: int| 0 <= j < id.len() implies id[j] != 'c' && id[j] != 's' && id[j] != 'u' && id[j]
        != 'g' && id[j] != 'l' && id[j] != 'y' by {
        assert(id[j] == 'i' || id[j] == 'd' || id[j] == 'e' || id[j] == 'n' || id[j] == 't' || id[j] == 'f'
            || id[j] == 'r');
    }
    lemma_no_infix(id, "comment"@, 0);
    lemma_no_infix(id, "string"@, 0);
    lemma_no_infix(id, "char"@, 0);
    lemma_no_infix(id, "number"@, 1);
    lemma_no_infix(id, "integer"@, 4);
    lemma_no_infix(id, "float"@, 1);
    lemma_no_infix(id, "decimal"@, 2);
    lemma_no_infix(id, "type"@, 1);
    assert(id != "heredoc_body"@) by {
        assert("heredoc_body"@.len() == 12);
    }
    assert(id != "constant"@) by {
        assert("constant"@.len() == 8);
    }
    assert(id != "primitive_type"@) by {
        assert("primitive_type"@.len() == 14);
    }
    assert(id.subrange(0, 10) =~= id);
    assert(has_suffix(id, "identifier"@));
}

/// Law: comments are colored whole as comments, then strings and character literals as
/// strings, then numeric literals as numbers, whatever the leaf's text and parent.
pub proof fn law_literal_kinds(kind: Seq<char>, named: bool, text: Seq<char>, parent: Seq<char>)
    ensures
        has_infix(kind, "comment"@) ==> leaf_class(kind, named, text, parent) == TokenClass::Comment,
        !has_infix(kind, "comment"@) && (has_infix(kind, "string"@) || has_infix(kind, "char"@))
            ==> leaf_class(kind, named, text, parent) == TokenClass::String,
        !has_infix(kind, "comment"@) && !has_infix(kind, "string"@) && !has_infix(kind, "char"@) && kind
            != "heredoc_body"@ && (has_infix(kind, "number"@) || has_infix(kind, "integer"@) || has_infix(kind, "float"@))
            ==> leaf_class(kind, named, text, parent) == TokenClass::Number,
{
}

/// Law: a named `primitive_type` leaf is a type, whatever its text and parent.
pub proof fn law_primitive_types(text: Seq<char>, parent: Seq<char>)
    ensures
        leaf_class("primitive_type"@, true, text, parent) == TokenClass::Type,
{
    let k = "primitive_type"@;
    reveal_strlit("primitive_type");
    reveal_strlit("comment");
    reveal_strlit("string");
    reveal_strlit("char");
    reveal_strlit("number");
    reveal_strlit("integer");
    reveal_strlit("float");
    reveal_strlit("decimal");
    reveal_strlit("heredoc_body");
    assert(k.len() == 14);
    assert("heredoc_body"@.len() == 12);
    assert forall|j: int| 0 <= j < k.len() implies k[j] != 'c' && k[j] != 's' && k[j] != 'u' && k[j] != 'g'
        && k[j] != 'l' by {
        assert(k[j] == 'p' || k[j] == 'r' || k[j] == 'i' || k[j] == 'm' || k[j] == 't' || k[j] == 'v' || k[j]
            == 'e' || k[j] == '_' || k[j] == 'y');
    }
    lemma_no_infix(k, "comment"@, 0);
    lemma_no_infix(k, "string"@, 0);
    lemma_no_infix(k, "char"@, 0);
    lemma_no_infix(k, "number"@, 1);
    lemma_no_infix(k, "integer"@, 4);
    lemma_no_infix(k, "float"@, 1);
    lemma_no_infix(k, "decimal"@, 2);
}

} // verus!

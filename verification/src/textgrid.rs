//! The character grid of source text on a roof: how a file's longest line and line count size
//! its text, which window of lines a layout covers, the level-of-detail tiers, and the walk over
//! token spans that classifies each character.

use vstd::prelude::*;
use vstd::utf8::{encode_scalar, encode_utf8, has_width_1_encoding, has_width_2_encoding, has_width_3_encoding};
use crate::strings::chars_of;
use crate::font::Atlas;
use crate::text::{TextTile, TokenSpan};

verus! {

/// Lines turned into quads in one layout.
pub const WINDOW: u32 = 1024;
/// The window starts on a multiple of this, so small camera moves do not re-lay out the file.
pub const WINDOW_STEP: u32 = 512;
/// Columns past this are not laid out; long minified lines would otherwise shrink the whole grid.
pub const MAX_COLS: usize = 120;
/// A tab advances to the next multiple of this many columns.
pub const TAB: usize = 4;

/// The column after `ch` when it is drawn at column `col`: a tab moves to the next multiple of
/// [`TAB`], anything else one column on.
pub open spec fn advance_col(col: nat, ch: char) -> nat {
    if ch == '\t' {
        ((col / 4 + 1) * 4) as nat
    } else {
        col + 1
    }
}

/// The column reached by drawing `line[i..]` from column `col`, stopping once [`MAX_COLS`] is
/// reached.
pub open spec fn width_from(line: Seq<char>, i: int, col: nat) -> nat
    decreases line.len() - i,
{
    if i >= line.len() || col >= MAX_COLS {
        col
    } else {
        width_from(line, i + 1, advance_col(col, line[i]))
    }
}

/// The expanded width of a line, clipped at [`MAX_COLS`].
pub open spec fn line_width(line: Seq<char>) -> nat {
    let w = width_from(line, 0, 0);
    if w < MAX_COLS { w } else { MAX_COLS as nat }
}

/// The index of the first `\n` at or after `i`, or the length of `s` if there is none.
pub open spec fn next_newline(s: Seq<char>, i: int) -> int
    decreases s.len() - i,
{
    if i >= s.len() {
        s.len() as int
    } else if s[i] == '\n' {
        i
    } else {
        next_newline(s, i + 1)
    }
}

/// The lines of `s[i..]` as `str::lines` yields them: split after each `\n`, without the line
/// ending (`\n` or `\r\n`); a final line ending adds no empty line.
pub open spec fn lines_from(s: Seq<char>, i: int) -> Seq<Seq<char>>
    decreases s.len() - i,
{
    if i < 0 || i >= s.len() {
        seq![]
    } else {
        let k = next_newline(s, i);
        let end = if k < s.len() && k > i && s[k - 1] == '\r' { k - 1 } else { k };
        if k < i || k >= s.len() {
            seq![s.subrange(i, end)]
        } else {
            seq![s.subrange(i, end)] + lines_from(s, k + 1)
        }
    }
}

/// The widest of `lines`, and at least 1.
pub open spec fn widest(lines: Seq<Seq<char>>) -> nat
    decreases lines.len(),
{
    if lines.len() == 0 {
        1
    } else {
        let w = widest(lines.drop_last());
        let l = line_width(lines.last());
        if l > w { l } else { w }
    }
}

/// The grid a text fills: its widest line (at least one column) by its line count (at least
/// one line).
pub open spec fn text_grid(s: Seq<char>) -> (nat, nat) {
    let ls = lines_from(s, 0);
    (widest(ls), if ls.len() > 0 { ls.len() } else { 1 })
}

proof fn lemma_next_newline(s: Seq<char>, i: int)
    requires
        0 <= i <= s.len(),
    ensures
        i <= next_newline(s, i) <= s.len(),
        next_newline(s, i) < s.len() ==> s[next_newline(s, i)] == '\n',
        forall|j: int| i <= j < next_newline(s, i) ==> s[j] != '\n',
    decreases s.len() - i,
{
    if i < s.len() && s[i] != '\n' {
        lemma_next_newline(s, i + 1);
    }
}

proof fn lemma_width_bound(line: Seq<char>, i: int, col: nat)
    requires
        col <= MAX_COLS,
    ensures
        width_from(line, i, col) <= MAX_COLS,
        col <= width_from(line, i, col),
    decreases line.len() - i,
{
    if i < line.len() && col < MAX_COLS {
        assert(advance_col(col, line[i]) <= MAX_COLS) by {
            if line[i] == '\t' {
                assert((col / 4 + 1) * 4 <= 120) by (nonlinear_arith)
                    requires
                        col < 120,
                ;
            }
        }
        lemma_width_bound(line, i + 1, advance_col(col, line[i]));
    }
}

/// The expanded width of `cs[from..to]`, clipped at [`MAX_COLS`].
fn measure(cs: &Vec<char>, from: usize, to: usize) -> (r: usize)
    requires
        from <= to <= cs@.len(),
    ensures
        r == line_width(cs@.subrange(from as int, to as int)),
{
    let ghost line = cs@.subrange(from as int, to as int);
    let mut col: usize = 0;
    let mut i: usize = from;
    while i < to && col < MAX_COLS
        invariant
            from <= i <= to <= cs@.len(),
            line == cs@.subrange(from as int, to as int),
            col <= MAX_COLS,
            width_from(line, (i - from) as int, col as nat) == width_from(line, 0, 0),
        decreases to - i,
    {
        let ch = cs[i];
        proof {
            assert(line[(i - from) as int] == ch);
            lemma_width_bound(line, (i - from) as int, col as nat);
        }
        col = if ch == '\t' {
            assert((col / 4 + 1) * 4 <= 120) by (nonlinear_arith)
                requires
                    col < 120,
            ;
            (col / TAB + 1) * TAB
        } else {
            col + 1
        };
        i = i + 1;
    }
    proof {
        lemma_width_bound(line, 0, 0);
    }
    if col < MAX_COLS { col } else { MAX_COLS }
}

/// Longest line (in expanded columns, clipped at [`MAX_COLS`]) and the line count, each at
/// least 1. The whole file is measured, so the em size is the same whichever slice is laid out.
pub fn grid_of(text: &str) -> (r: (usize, usize))
    ensures
        r.0 == text_grid(text@).0,
        r.1 == text_grid(text@).1,
{
    let cs = chars_of(text);
    let n = cs.len();
    let ghost s = cs@;
    let mut cols: usize = 1;
    let mut lines: usize = 0;
    let mut i: usize = 0;
    let ghost mut done: Seq<Seq<char>> = seq![];
    while i < n
        invariant
            s == cs@,
            n == s.len(),
            i <= n,
            lines == done.len(),
            lines <= i,
            cols == widest(done),
            cols <= MAX_COLS,
            lines_from(s, 0) == done + lines_from(s, i as int),
        decreases n - i,
    {
        let mut k = i;
        while k < n && cs[k] != '\n'
            invariant
                i <= k <= n == cs@.len(),
                s == cs@,
                forall|j: int| i <= j < k ==> s[j] != '\n',
            decreases n - k,
        {
            k = k + 1;
        }
        proof {
            lemma_next_newline(s, i as int);
            if next_newline(s, i as int) < k {
                assert(s[next_newline(s, i as int)] == '\n');
            }
            assert(k == next_newline(s, i as int));
        }
        let end = if k < n && k > i && cs[k - 1] == '\r' { k - 1 } else { k };
        let w = measure(&cs, i, end);
        proof {
            lemma_width_bound(s.subrange(i as int, end as int), 0, 0);
            let line = s.subrange(i as int, end as int);
            let next = if k < n { k + 1 } else { n as int };
            if k < n {
                assert(lines_from(s, i as int) == seq![line] + lines_from(s, k + 1));
            } else {
                assert(lines_from(s, i as int) == seq![line]);
                assert(lines_from(s, n as int) =~= Seq::<Seq<char>>::empty());
                assert(lines_from(s, i as int) =~= seq![line] + lines_from(s, n as int));
            }
            assert((done + seq![line]).drop_last() =~= done);
            assert(lines_from(s, 0) =~= (done + seq![line]) + lines_from(s, next));
            done = done + seq![line];
        }
        if w > cols {
            cols = w;
        }
        lines = lines + 1;
        i = if k < n { k + 1 } else { n };
    }
    proof {
        assert(lines_from(s, i as int) =~= Seq::<Seq<char>>::empty());
        assert(done + lines_from(s, i as int) =~= done);
    }
    (cols, if lines > 0 { lines } else { 1 })
}

/// The first line of the window holding `line`: the step containing it, moved back half a step
/// so the line sits in the window's middle half; never below line 0.
pub open spec fn window_start(line: u32) -> u32 {
    let f = (line / WINDOW_STEP) * WINDOW_STEP;
    if f >= WINDOW_STEP / 2 { (f - WINDOW_STEP / 2) as u32 } else { 0 }
}

/// Where a file's text goes: its roof rectangle, the height of that roof, and which slice of the
/// file to build quads for. The rectangle (`[x, y, w, h]`, lower-left origin) and the height are
/// `f32` values held as their bit patterns.
#[derive(Debug, Clone, Copy, PartialEq, Eq)]
pub struct Placement {
    pub file_id: u32,
    pub rect: [u32; 4],
    pub z: u32,
    /// First line of the [`WINDOW`] this layout covers. Always a multiple of `WINDOW / 2`.
    pub first_line: u32,
}

impl Placement {
    /// The window holding `line`, snapped so the line sits in its middle half. Panning inside a
    /// window costs nothing; leaving it re-lays the file out once.
    pub fn window_for(line: u32) -> (r: u32)
        ensures
            r == window_start(line),
    {
        ((line / WINDOW_STEP) * WINDOW_STEP).saturating_sub(WINDOW_STEP / 2)
    }
}

/// The window chosen for a line holds that line.
pub proof fn law_window_holds_its_line(line: u32)
    ensures
        window_start(line) <= line < window_start(line) + WINDOW,
{
}

/// Lines of one step share a window, and the next step's window starts one step later.
pub proof fn law_windows_move_by_steps(line: u32)
    requires
        WINDOW_STEP <= line,
        line + WINDOW_STEP <= u32::MAX,
    ensures
        window_start((line + WINDOW_STEP) as u32) == window_start(line) + WINDOW_STEP,
        forall|other: u32| other / WINDOW_STEP == line / WINDOW_STEP ==> window_start(other)
            == window_start(line),
{
    assert(((line + 512) as u32) / 512 == line / 512 + 1);
}

/// Which tier a roof is drawn at, from the height of one of its text lines on screen.
#[derive(Debug, Clone, Copy, PartialEq, Eq, Structural)]
pub enum Tier {
    /// Too small for text: the roof's own color only.
    NoText,
    /// One colored bar per token run.
    Strips,
    /// One glyph quad per character.
    Glyphs,
}

/// The end of a span (one past its last byte).
pub open spec fn span_end(s: TokenSpan) -> int {
    s.start + s.len
}

/// Spans in order, none overlapping the next, and none running past `u32::MAX`.
pub open spec fn spans_ordered(spans: Seq<TokenSpan>) -> bool {
    &&& forall|i: int| 0 <= i < spans.len() ==> span_end(#[trigger] spans[i]) <= u32::MAX
    &&& forall|i: int, j: int| 0 <= i < j < spans.len() ==> span_end(spans[i]) <= spans[j].start
}

/// Whether span `s` covers byte `offset`.
pub open spec fn covers(s: TokenSpan, offset: int) -> bool {
    s.start <= offset < span_end(s)
}

/// The class of the span covering `offset`, or 0 (`Other`) where none does.
pub open spec fn class_at_offset(spans: Seq<TokenSpan>, offset: int) -> u8 {
    if exists|k: int| 0 <= k < spans.len() && covers(spans[k], offset) {
        spans[choose|k: int| 0 <= k < spans.len() && covers(spans[k], offset)].class
    } else {
        0
    }
}

/// Walks sorted, non-overlapping token spans alongside a forward scan of the text.
pub struct SpanCursor<'a> {
    pub spans: &'a [TokenSpan],
    pub at: usize,
}

impl<'a> SpanCursor<'a> {
    pub fn new(spans: &'a [TokenSpan]) -> (r: Self)
        ensures
            r.spans@ == spans@,
            r.at == 0,
    {
        SpanCursor { spans, at: 0 }
    }

    /// Every span the cursor has moved past ends at or before `offset`.
    pub open spec fn passed_before(&self, offset: int) -> bool {
        &&& self.at <= self.spans@.len()
        &&& forall|k: int| 0 <= k < self.at ==> span_end(#[trigger] self.spans@[k]) <= offset
    }

    /// Class of the span covering `offset`, or 0 (`Other`) if none does. `offset` must not move
    /// backwards between calls.
    pub fn class_at(&mut self, offset: u32) -> (r: u8)
        requires
            spans_ordered(old(self).spans@),
            old(self).passed_before(offset as int),
        ensures
            r == class_at_offset(old(self).spans@, offset as int),
            final(self).spans@ == old(self).spans@,
            old(self).at <= final(self).at,
            final(self).passed_before(offset as int),
    {
        let ghost spans = self.spans@;
        while self.at < self.spans.len()
            invariant
                self.spans@ == spans,
                spans == old(self).spans@,
                spans_ordered(spans),
                old(self).at <= self.at,
                self.passed_before(offset as int),
            decreases self.spans@.len() - self.at,
        {
            let span = self.spans[self.at];
            assert(span_end(spans[self.at as int]) <= u32::MAX);
            if offset >= span.start + span.len {
                self.at = self.at + 1;
            } else if offset >= span.start {
                proof {
                    let k = self.at as int;
                    assert(covers(spans[k], offset as int));
                    let c = choose|c: int| 0 <= c < spans.len() && covers(spans[c], offset as int);
                    if c < k {
                        assert(span_end(spans[c]) <= offset);
                    } else if c > k {
                        assert(span_end(spans[k]) <= spans[c].start);
                    }
                    assert(c == k);
                }
                return span.class;
            } else {
                proof {
                    let k = self.at as int;
                    assert forall|c: int| 0 <= c < spans.len() implies !covers(spans[c], offset as int) by {
                        if c < k {
                            assert(span_end(spans[c]) <= offset);
                        } else if c > k {
                            assert(span_end(spans[k]) <= spans[c].start);
                        }
                    }
                }
                return 0;
            }
        }
        proof {
            assert forall|c: int| 0 <= c < spans.len() implies !covers(spans[c], offset as int) by {
                assert(span_end(spans[c]) <= offset);
            }
        }
        0
    }
}

/// Per-file instance caps, so one pathological file cannot dominate the text budget.
pub const MAX_GLYPHS: usize = 48_000;
pub const MAX_STRIPS: usize = 12_000;

/// The bytes `c` takes in UTF-8.
pub open spec fn utf8_width(c: char) -> int {
    if (c as u32) < 0x80 {
        1
    } else if (c as u32) < 0x800 {
        2
    } else if (c as u32) < 0x10000 {
        3
    } else {
        4
    }
}

/// What the walk over a file's text meets, in order: a character drawn at a line and column
/// (with its byte offset), or a break that ends any bar (white space, the end of a line).
pub enum TextStep {
    Draw { line: int, col: int, offset: int, code: u32 },
    Break,
}

/// Whether `ch` is white space that takes a column but draws nothing.
pub open spec fn blank_char(ch: char) -> bool {
    ch == '\t' || ch == ' ' || ch == '\r'
}

/// The steps of the walk from character `i`, which stands at `line`, `col` and byte `offset`,
/// for a window starting at line `first`. Lines before the window are skipped; the walk stops
/// at the end of the window's last line; characters past [`MAX_COLS`] are clipped.
pub open spec fn steps_from(s: Seq<char>, i: int, line: int, col: int, offset: int, first: int) -> Seq<TextStep>
    decreases s.len() - i,
{
    if i < 0 || i >= s.len() {
        seq![]
    } else {
        let ch = s[i];
        let next = offset + utf8_width(ch);
        if line < first {
            steps_from(s, i + 1, if ch == '\n' { line + 1 } else { line }, col, next, first)
        } else if ch == '\n' {
            if line + 1 >= first + WINDOW {
                seq![TextStep::Break]
            } else {
                seq![TextStep::Break] + steps_from(s, i + 1, line + 1, 0, next, first)
            }
        } else if col >= MAX_COLS {
            steps_from(s, i + 1, line, col, next, first)
        } else if blank_char(ch) {
            seq![TextStep::Break] + steps_from(s, i + 1, line, advance_col(col as nat, ch) as int, next, first)
        } else {
            seq![TextStep::Draw { line, col, offset, code: ch as u32 }] + steps_from(s, i + 1, line, col + 1, next, first)
        }
    }
}

/// A glyph to draw: where it stands in the grid, its atlas cell and its token class.
#[derive(Debug, Clone, Copy, PartialEq, Eq, Structural)]
pub struct GlyphCell {
    pub line: u64,
    pub col: u32,
    pub cell: u32,
    pub class: u8,
}

/// A bar over the columns `start..end` of one line, for a run of one token class.
#[derive(Debug, Clone, Copy, PartialEq, Eq, Structural)]
pub struct Strip {
    pub line: u64,
    pub start: u32,
    pub end: u32,
    pub class: u8,
}

/// The glyph a step draws, if it draws a character the atlas holds.
pub open spec fn glyph_of(st: TextStep, spans: Seq<TokenSpan>, first_char: u32, count: u32) -> Option<GlyphCell> {
    match st {
        TextStep::Draw { line, col, offset, code } => if first_char <= code < first_char + count {
            Some(GlyphCell {
                line: line as u64,
                col: col as u32,
                cell: (code - first_char) as u32,
                class: class_at_offset(spans, offset),
            })
        } else {
            None
        },
        TextStep::Break => None,
    }
}

/// The glyphs of `steps`, in order.
pub open spec fn glyph_list(steps: Seq<TextStep>, spans: Seq<TokenSpan>, first_char: u32, count: u32) -> Seq<GlyphCell>
    decreases steps.len(),
{
    if steps.len() == 0 {
        seq![]
    } else {
        glyph_list(steps.drop_last(), spans, first_char, count) + match glyph_of(steps.last(), spans, first_char, count) {
            Some(g) => seq![g],
            None => seq![],
        }
    }
}

/// `closed` with the open bar, if any, appended.
pub open spec fn close_run(closed: Seq<Strip>, open: Option<Strip>) -> Seq<Strip> {
    match open {
        Some(r) => closed.push(r),
        None => closed,
    }
}

/// The bars of `steps` so far: those ended, and the one still open. A drawn character extends
/// the open bar when it has the same class and stands right after it; otherwise it starts a new
/// bar. A break ends the open bar.
pub open spec fn run_state(steps: Seq<TextStep>, spans: Seq<TokenSpan>) -> (Seq<Strip>, Option<Strip>)
    decreases steps.len(),
{
    if steps.len() == 0 {
        (seq![], None)
    } else {
        let (closed, open) = run_state(steps.drop_last(), spans);
        match steps.last() {
            TextStep::Break => (close_run(closed, open), None),
            TextStep::Draw { line, col, offset, code } => {
                let class = class_at_offset(spans, offset);
                match open {
                    Some(r) => if r.class == class && r.end == col {
                        (closed, Some(Strip { end: (col + 1) as u32, ..r }))
                    } else {
                        (close_run(closed, open), Some(Strip { line: line as u64, start: col as u32, end: (col + 1) as u32, class }))
                    },
                    None => (closed, Some(Strip { line: line as u64, start: col as u32, end: (col + 1) as u32, class })),
                }
            },
        }
    }
}

/// The first `max` elements of `s`, or all of it.
pub open spec fn capped<A>(s: Seq<A>, max: nat) -> Seq<A> {
    if s.len() <= max { s } else { s.take(max as int) }
}

/// What a layout of `text` draws for the window starting at `first_line`: its glyphs and its
/// bars, each list capped.
pub open spec fn text_plan(text: Seq<char>, spans: Seq<TokenSpan>, first_line: int, first_char: u32, count: u32) -> (Seq<GlyphCell>, Seq<Strip>) {
    let steps = steps_from(text, 0, 0, 0, 0, first_line);
    let (closed, open) = run_state(steps, spans);
    (capped(glyph_list(steps, spans, first_char, count), MAX_GLYPHS as nat), capped(close_run(closed, open), MAX_STRIPS as nat))
}

/// The glyphs and bars of one layout, in grid coordinates.
pub struct TextPlan {
    pub glyphs: Vec<GlyphCell>,
    pub strips: Vec<Strip>,
}

proof fn lemma_capped_push<A>(s: Seq<A>, x: A, max: nat)
    ensures
        capped(s.push(x), max) == if s.len() < max { capped(s, max).push(x) } else { capped(s, max) },
{
    if s.len() < max {
        assert(capped(s.push(x), max) =~= capped(s, max).push(x));
    } else {
        assert(capped(s.push(x), max) =~= capped(s, max));
    }
}

proof fn lemma_push_drop_last<A>(s: Seq<A>, x: A)
    ensures
        s.push(x).drop_last() == s,
{
    assert(s.push(x).drop_last() =~= s);
}

proof fn lemma_draw_step(s: Seq<char>, i: int, line: int, col: int, offset: int, first: int)
    requires
        0 <= i < s.len(),
        first <= line,
        s[i] != '\n',
        col < MAX_COLS,
        !blank_char(s[i]),
    ensures
        steps_from(s, i, line, col, offset, first) == seq![TextStep::Draw { line, col, offset, code: s[i] as u32 }]
            + steps_from(s, i + 1, line, col + 1, offset + utf8_width(s[i]), first),
{
}

/// End the open bar: it joins the bars unless the cap is reached.
fn flush(strips: &mut Vec<Strip>, run: &mut Option<Strip>)
    ensures
        *final(run) is None,
        final(strips)@ == match *old(run) {
            Some(r) => if old(strips)@.len() < MAX_STRIPS { old(strips)@.push(r) } else { old(strips)@ },
            None => old(strips)@,
        },
{
    if let Some(r) = *run {
        if strips.len() < MAX_STRIPS {
            strips.push(r);
        }
    }
    *run = None;
}

proof fn lemma_encoded_step(s: Seq<char>, i: int)
    requires
        0 <= i < s.len(),
    ensures
        encode_utf8(s.skip(i)).len() == utf8_width(s[i]) + encode_utf8(s.skip(i + 1)).len(),
{
    assert(s.skip(i).drop_first() =~= s.skip(i + 1));
    assert(s.skip(i)[0] == s[i]);
    let c = s[i] as u32;
    vstd::utf8::char_is_scalar(s[i]);
    if c < 0x80 {
        assert(has_width_1_encoding(c));
    } else if c < 0x800 {
        assert(has_width_2_encoding(c));
    } else if c < 0x10000 {
        assert(has_width_3_encoding(c));
    } else {
        assert(!has_width_1_encoding(c) && !has_width_2_encoding(c) && !has_width_3_encoding(c));
    }
}

/// The bytes `ch` takes in UTF-8.
fn utf8_len(ch: char) -> (r: u32)
    ensures
        r == utf8_width(ch),
{
    let c = ch as u32;
    if c < 0x80 {
        1
    } else if c < 0x800 {
        2
    } else if c < 0x10000 {
        3
    } else {
        4
    }
}

/// The glyphs and bars that lay out the window of `tile`'s text starting at line `first_line`:
/// one glyph per drawn character the atlas holds, one bar per run of adjacent characters of one
/// token class. White space takes columns but draws nothing and ends a bar.
pub fn layout_plan(tile: &TextTile, first_line: u32, atlas: &Atlas) -> (r: TextPlan)
    requires
        spans_ordered(tile.spans@),
        encode_utf8(tile.text@).len() <= u32::MAX,
    ensures
        r.glyphs@ == text_plan(tile.text@, tile.spans@, first_line as int, atlas.first_char, atlas.count).0,
        r.strips@ == text_plan(tile.text@, tile.spans@, first_line as int, atlas.first_char, atlas.count).1,
{
    let cs = chars_of(tile.text.as_str());
    let n = cs.len();
    let ghost s = cs@;
    assert(s.skip(0) =~= s);
    let ghost spans = tile.spans@;
    let ghost fc = atlas.first_char;
    let ghost cnt = atlas.count;
    let first: u64 = first_line as u64;
    let last: u64 = first + WINDOW as u64;
    let mut cursor = SpanCursor::new(tile.spans.as_slice());
    let mut glyphs: Vec<GlyphCell> = Vec::new();
    let mut strips: Vec<Strip> = Vec::new();
    let mut run: Option<Strip> = None;
    let mut line: u64 = 0;
    let mut col: u32 = 0;
    let mut off: u32 = 0;
    let mut i: usize = 0;
    let mut stop = false;
    let ghost mut done: Seq<TextStep> = seq![];
    while i < n && !stop
        invariant
            s == cs@,
            s == tile.text@,
            spans == tile.spans@,
            fc == atlas.first_char,
            cnt == atlas.count,
            n == s.len(),
            i <= n,
            off + encode_utf8(s.skip(i as int)).len() == encode_utf8(s).len(),
            encode_utf8(s).len() <= u32::MAX,
            line <= i,
            col <= MAX_COLS,
            first == first_line,
            last == first + WINDOW,
            cursor.spans@ == spans,
            spans_ordered(spans),
            cursor.passed_before(off as int),
            steps_from(s, 0, 0, 0, 0, first as int) == done + (if stop {
                Seq::<TextStep>::empty()
            } else {
                steps_from(s, i as int, line as int, col as int, off as int, first as int)
            }),
            glyphs@ == capped(glyph_list(done, spans, fc, cnt), MAX_GLYPHS as nat),
            strips@ == capped(run_state(done, spans).0, MAX_STRIPS as nat),
            run == run_state(done, spans).1,
        decreases n - i,
    {
        let ch = cs[i];
        let w = utf8_len(ch);
        proof {
            lemma_encoded_step(s, i as int);
        }
        let ghost rest = steps_from(s, i as int, line as int, col as int, off as int, first as int);
        let ghost next = off + w;
        if line < first {
            proof {
                assert(rest == steps_from(s, i + 1, if ch == '\n' { line + 1 } else { line as int }, col as int, next, first as int));
            }
            if ch == '\n' {
                line = line + 1;
            }
        } else if ch == '\n' {
            let ghost closed = run_state(done, spans).0;
            let ghost open = run_state(done, spans).1;
            proof {
                if let Some(r) = open {
                    lemma_capped_push(closed, r, MAX_STRIPS as nat);
                }
            }
            flush(&mut strips, &mut run);
            proof {
                let d2 = done.push(TextStep::Break);
                assert(d2.drop_last() =~= done);
                assert(glyph_list(d2, spans, fc, cnt) =~= glyph_list(done, spans, fc, cnt));
                assert(run_state(d2, spans) == (close_run(closed, open), Option::<Strip>::None));
                done = d2;
            }
            line = line + 1;
            if line >= last {
                stop = true;
                proof {
                    assert(rest == seq![TextStep::Break]);
                    assert(steps_from(s, 0, 0, 0, 0, first as int) =~= done);
                }
            } else {
                proof {
                    assert(rest == seq![TextStep::Break] + steps_from(s, i + 1, line as int, 0, next, first as int));
                    assert(steps_from(s, 0, 0, 0, 0, first as int) =~= done + steps_from(s, i + 1, line as int, 0, next, first as int));
                }
                col = 0;
            }
        } else if col as usize >= MAX_COLS {
            proof {
                assert(rest == steps_from(s, i + 1, line as int, col as int, next, first as int));
            }
        } else if ch == '\t' || ch == ' ' || ch == '\r' {
            let ghost closed = run_state(done, spans).0;
            let ghost open = run_state(done, spans).1;
            proof {
                if let Some(r) = open {
                    lemma_capped_push(closed, r, MAX_STRIPS as nat);
                }
            }
            flush(&mut strips, &mut run);
            let new_col: u32 = if ch == '\t' {
                assert((col / 4 + 1) * 4 <= 120) by (nonlinear_arith)
                    requires
                        col < 120,
                ;
                (col / 4 + 1) * 4
            } else {
                col + 1
            };
            proof {
                assert(new_col == advance_col(col as nat, ch));
                let d2 = done.push(TextStep::Break);
                assert(d2.drop_last() =~= done);
                assert(glyph_list(d2, spans, fc, cnt) =~= glyph_list(done, spans, fc, cnt));
                assert(run_state(d2, spans) == (close_run(closed, open), Option::<Strip>::None));
                assert(rest == seq![TextStep::Break] + steps_from(s, i + 1, line as int, new_col as int, next, first as int));
                assert(steps_from(s, 0, 0, 0, 0, first as int) =~= d2 + steps_from(s, i + 1, line as int, new_col as int, next, first as int));
                done = d2;
            }
            col = new_col;
        } else {
            let ghost drawn = TextStep::Draw { line: line as int, col: col as int, offset: off as int, code: ch as u32 };
            let ghost d2 = done.push(drawn);
            proof {
                lemma_push_drop_last(done, drawn);
                lemma_draw_step(s, i as int, line as int, col as int, off as int, first as int);
                assert(steps_from(s, 0, 0, 0, 0, first as int) =~= d2 + steps_from(s, i + 1, line as int, col + 1, next, first as int));
            }
            let class = cursor.class_at(off);
            let ghost gl = glyph_list(done, spans, fc, cnt);
            let cell = atlas.cell(ch);
            match cell {
                Some(c) => {
                    let g = GlyphCell { line, col, cell: c, class };
                    proof {
                        assert(glyph_of(drawn, spans, fc, cnt) == Some(g));
                        assert(glyph_list(d2, spans, fc, cnt) =~= gl.push(g));
                        lemma_capped_push(gl, g, MAX_GLYPHS as nat);
                    }
                    if glyphs.len() < MAX_GLYPHS {
                        glyphs.push(g);
                    }
                },
                None => {
                    proof {
                        assert(glyph_of(drawn, spans, fc, cnt) is None);
                        assert(glyph_list(d2, spans, fc, cnt) =~= gl);
                    }
                },
            }
            let ghost closed = run_state(done, spans).0;
            let ghost open = run_state(done, spans).1;
            let fresh = Strip { line, start: col, end: col + 1, class };
            match run {
                Some(r) => {
                    if r.class == class && r.end == col {
                        run = Some(Strip { end: col + 1, ..r });
                        proof {
                            assert(run_state(d2, spans) == (closed, Some(Strip { end: (col + 1) as u32, ..r })));
                        }
                    } else {
                        proof {
                            lemma_capped_push(closed, r, MAX_STRIPS as nat);
                        }
                        flush(&mut strips, &mut run);
                        run = Some(fresh);
                        proof {
                            assert(run_state(d2, spans) == (close_run(closed, open), Some(fresh)));
                        }
                    }
                },
                None => {
                    run = Some(fresh);
                    proof {
                        assert(run_state(d2, spans) == (closed, Some(fresh)));
                    }
                },
            }
            proof {
                done = d2;
            }
            col = col + 1;
        }
        off = off + w;
        i = i + 1;
    }
    let ghost closed = run_state(done, spans).0;
    let ghost open = run_state(done, spans).1;
    proof {
        if !stop {
            assert(steps_from(s, i as int, line as int, col as int, off as int, first as int) =~= Seq::<TextStep>::empty());
        }
        assert(steps_from(s, 0, 0, 0, 0, first as int) =~= done);
        if let Some(r) = open {
            lemma_capped_push(closed, r, MAX_STRIPS as nat);
        }
    }
    flush(&mut strips, &mut run);
    TextPlan { glyphs, strips }
}


} // verus!

//! The mouse selection: anchored at a click, extended by words or lines, and the text
//! it covers.
use vstd::prelude::*;
use vstd::utf8::{encode_scalar, is_scalar};

use crate::vt::model::{TermV, LineV, min};
use crate::vt::lemmas::lemma_line_at_len;
use crate::vt::{Cell, Term, Span, TAIL, encode_utf8};

verus! {

/// A selection: the span selected (line ids and columns), whether a drag is under way,
/// where it started, and whether it goes by characters, words or lines.
pub struct Sel {
    pub on: Span,
    pub dragging: bool,
    anchor: (u64, usize),
    mode: u8,
}

/// The state of a selection: the span selected, whether a drag is under way, where it
/// started, and whether it goes by characters (0), words (1) or lines (2).
pub struct SelV {
    pub on: Span,
    pub dragging: bool,
    pub anchor: (u64, usize),
    pub mode: u8,
}

impl View for Sel {
    type V = SelV;

    closed spec fn view(&self) -> SelV {
        SelV { on: self.on, dragging: self.dragging, anchor: self.anchor, mode: self.mode }
    }
}

impl Default for Sel {
    fn default() -> (s: Sel)
        ensures
            s@ == (SelV { on: None, dragging: false, anchor: (0, 0), mode: 0 }),
    {
        Sel { on: None, dragging: false, anchor: (0, 0), mode: 0 }
    }
}

/// The span starts no later than it ends.
pub open spec fn ordered(on: Span) -> bool {
    match on {
        None => true,
        Some(((al, ac), (bl, bc))) => al < bl || (al == bl && ac <= bc),
    }
}

/// A character that belongs to a word for double-click selection: anything past ASCII,
/// an ASCII letter or digit, or one of `_-./~+@$%`.
pub open spec fn word_char_spec(cp: u32) -> bool {
    cp > 127 || (48 <= cp <= 57) || (65 <= cp <= 90) || (97 <= cp <= 122) || cp == 95 || cp == 45
        || cp == 46 || cp == 47 || cp == 126 || cp == 43 || cp == 64 || cp == 36 || cp == 37
}

/// The start of the word that ends just before column `x`.
pub open spec fn extend_left(cells: Seq<Cell>, x: int) -> int
    decreases x,
{
    if x > 0 && x <= cells.len() && word_char_spec(cells[x - 1].cp) { extend_left(cells, x - 1) } else { x }
}

/// The end of the word that starts just after column `x`.
pub open spec fn extend_right(cells: Seq<Cell>, x: int) -> int
    decreases cells.len() - x,
{
    if x + 1 < cells.len() && word_char_spec(cells[x + 1].cp) { extend_right(cells, x + 1) } else { x }
}

pub open spec fn word_left(l: Option<LineV>, x: int) -> int {
    match l {
        None => x,
        Some(l) => extend_left(l.cells, x),
    }
}

pub open spec fn word_right(l: Option<LineV>, x: int) -> int {
    match l {
        None => x,
        Some(l) => extend_right(l.cells, x),
    }
}

/// The span from the anchor to `(l, c)`, in order, widened to whole words or lines.
pub open spec fn sel_update(s: SelV, t: TermV, l: u64, c: usize) -> SelV {
    let a = s.anchor;
    let before = l < a.0 || (l == a.0 && c < a.1);
    let lo = if before { (l, c) } else { a };
    let hi = if before { a } else { (l, c) };
    let (lo2, hi2) = if s.mode == 2 {
        ((lo.0, 0usize), (hi.0, (t.cols - 1) as usize))
    } else if s.mode == 1 {
        ((lo.0, word_left(t.line_at(lo.0), lo.1 as int) as usize), (hi.0, word_right(t.line_at(hi.0), hi.1 as int) as usize))
    } else {
        (lo, hi)
    };
    SelV { on: Some((lo2, hi2)), ..s }
}

/// A cell that adds nothing visible at the end of a row: a wide character's right half,
/// or a blank.
pub open spec fn blank_or_tail(c: Cell) -> bool {
    c.attr & TAIL != 0 || c.cp == 0 || c.cp == 32
}

/// The UTF-8 bytes of a cell: a space for an empty cell, U+FFFD for what is not a
/// Unicode scalar value, and nothing for a wide character's right half.
pub open spec fn cell_bytes(c: Cell) -> Seq<u8> {
    if c.attr & TAIL != 0 {
        Seq::empty()
    } else {
        let cp = if c.cp == 0 { 32 } else { c.cp };
        encode_scalar(if is_scalar(cp) { cp } else { 0xfffd })
    }
}

pub open spec fn cells_bytes(cs: Seq<Cell>) -> Seq<u8>
    decreases cs.len(),
{
    if cs.len() == 0 { Seq::empty() } else { cells_bytes(cs.drop_last()) + cell_bytes(cs.last()) }
}

/// The cells without those at the end that add nothing visible.
pub open spec fn trim_cells(cs: Seq<Cell>) -> Seq<Cell>
    decreases cs.len(),
{
    if cs.len() > 0 && blank_or_tail(cs.last()) { trim_cells(cs.drop_last()) } else { cs }
}

/// The text of a piece of a row, without trailing blanks.
pub open spec fn row_text(cs: Seq<Cell>) -> Seq<u8> {
    cells_bytes(trim_cells(cs))
}

/// The text that line `id` adds to the selection `(al, ac)..=(bl, bc)`: its selected
/// cells, and a line feed after every line but the last unless it wrapped.
pub open spec fn line_text(l: LineV, id: int, al: int, ac: int, bl: int, bc: int) -> Seq<u8> {
    let n = l.cells.len() as int;
    if n == 0 {
        if id != bl { seq![10u8] } else { Seq::empty() }
    } else {
        let x0 = if id == al { min(ac, n - 1) } else { 0 };
        let x1 = if id == bl { min(bc, n - 1) } else { n - 1 };
        row_text(l.cells.subrange(x0, x1 + 1)) + (if id != bl && !l.wrapped { seq![10u8] } else { Seq::empty() })
    }
}

/// The text of the lines `id..=bl` of the selection, up to the first line that is gone.
pub open spec fn text_from(t: TermV, id: int, al: int, ac: int, bl: int, bc: int) -> Seq<u8>
    decreases bl + 1 - id,
{
    if id > bl || id < 0 || id > u64::MAX {
        Seq::empty()
    } else {
        match t.line_at(id as u64) {
            None => Seq::empty(),
            Some(l) => line_text(l, id, al, ac, bl, bc) + text_from(t, id + 1, al, ac, bl, bc),
        }
    }
}

/// The columns of a selection within one line do not cross by more than one cell, once
/// each is pulled inside the line.
pub open spec fn text_fits(on: Span, t: TermV) -> bool {
    match on {
        Some(((al, ac), (bl, bc))) => al == bl ==> match t.line_at(al) {
            Some(l) => l.cells.len() == 0 || min(ac as int, l.cells.len() - 1) <= min(bc as int, l.cells.len() - 1) + 1,
            None => true,
        },
        None => true,
    }
}

/// The text of the selection `on`, if there is one.
pub open spec fn sel_text(on: Span, t: TermV) -> Option<Seq<u8>> {
    match on {
        None => None,
        Some(((al, ac), (bl, bc))) => Some(text_from(t, al as int, al as int, ac as int, bl as int, bc as int)),
    }
}

proof fn lemma_extend_left_bounds(cells: Seq<Cell>, x: int)
    requires
        0 <= x,
    ensures
        0 <= extend_left(cells, x) <= x,
    decreases x,
{
    if x > 0 && x <= cells.len() && word_char_spec(cells[x - 1].cp) {
        lemma_extend_left_bounds(cells, x - 1);
    }
}

/// The end of a word lies at the start column or inside the line.
proof fn lemma_extend_right_bounds(cells: Seq<Cell>, x: int)
    ensures
        x <= extend_right(cells, x),
        extend_right(cells, x) == x || extend_right(cells, x) < cells.len(),
    decreases cells.len() - x,
{
    if x + 1 < cells.len() && word_char_spec(cells[x + 1].cp) {
        lemma_extend_right_bounds(cells, x + 1);
    }
}

fn word_char(cp: u32) -> (r: bool)
    ensures
        r == word_char_spec(cp),
{
    cp > 127 || (48 <= cp && cp <= 57) || (65 <= cp && cp <= 90) || (97 <= cp && cp <= 122) || cp == 95
        || cp == 45 || cp == 46 || cp == 47 || cp == 126 || cp == 43 || cp == 64 || cp == 36 || cp == 37
}

/// Appends the text of `cells[x0..=x1]` without trailing blanks to `out`.
fn push_row(out: &mut Vec<u8>, cells: &Vec<Cell>, x0: usize, x1: usize)
    requires
        x0 <= x1 + 1,
        x1 < cells@.len(),
    ensures
        final(out)@ == old(out)@ + row_text(cells@.subrange(x0 as int, x1 + 1)),
{
    let ghost base = out@;
    let ghost seg = cells@.subrange(x0 as int, x1 + 1);
    let mut keep = out.len();
    let mut j = x0;
    proof {
        assert(seg.take(0) =~= Seq::<Cell>::empty());
        assert(base =~= base + cells_bytes(seg.take(0)));
    }
    while j <= x1
        invariant
            x0 <= j <= x1 + 1,
            x1 < cells.len(),
            seg == cells@.subrange(x0 as int, x1 + 1),
            out@ == base + cells_bytes(seg.take(j - x0)),
            keep <= out@.len(),
            out@.take(keep as int) == base + cells_bytes(trim_cells(seg.take(j - x0))),
        decreases x1 + 1 - j,
    {
        let c = cells[j];
        let k = j - x0;
        proof {
            assert(seg.take(k + 1).drop_last() =~= seg.take(k as int));
            assert(seg.take(k + 1).last() == c);
        }
        let ghost o = out@;
        if c.attr & TAIL == 0 {
            let cp = if c.cp == 0 { 32 } else { c.cp };
            encode_utf8(cp, out);
            if cp != 32 {
                keep = out.len();
                proof { assert(out@.take(keep as int) =~= out@); }
            } else {
                proof { assert(out@.take(keep as int) =~= o.take(keep as int)); }
            }
        }
        j = j + 1;
        proof {
            assert(out@ =~= base + cells_bytes(seg.take(j - x0)));
        }
    }
    proof { assert(seg.take(x1 + 1 - x0) =~= seg); }
    out.truncate(keep);
}

impl Sel {
    /// Sets the span from the anchor to `(l, c)`, widened by the mode.
    fn update(&mut self, t: &Term, l: u64, c: usize)
        requires
            t.wf(),
        ensures
            final(self)@ == sel_update(old(self)@, t@, l, c),
            ordered(final(self)@.on),
    {
        proof { t.lemma_fields(); }
        let a = self.anchor;
        let before = l < a.0 || (l == a.0 && c < a.1);
        let mut lo = if before { (l, c) } else { a };
        let mut hi = if before { a } else { (l, c) };
        if self.mode == 2 {
            lo.1 = 0;
            hi.1 = t.cols - 1;
        } else if self.mode == 1 {
            match t.line_at(lo.0) {
                Some(line) => {
                    let ghost cs = line.cells@;
                    let mut x = lo.1;
                    while x > 0 && x <= line.cells.len() && word_char(line.cells[x - 1].cp)
                        invariant
                            cs == line.cells@,
                            x <= lo.1,
                            extend_left(cs, x as int) == extend_left(cs, lo.1 as int),
                        decreases x,
                    {
                        x = x - 1;
                    }
                    lo.1 = x;
                }
                None => {}
            }
            match t.line_at(hi.0) {
                Some(line) => {
                    let ghost cs = line.cells@;
                    let mut x = hi.1;
                    while line.cells.len() > 0 && x < line.cells.len() - 1 && word_char(line.cells[x + 1].cp)
                        invariant
                            cs == line.cells@,
                            x >= hi.1,
                            extend_right(cs, x as int) == extend_right(cs, hi.1 as int),
                        decreases cs.len() - x,
                    {
                        x = x + 1;
                    }
                    hi.1 = x;
                }
                None => {}
            }
        }
        self.on = Some((lo, hi));
    }

    /// Starts a selection at `(l, c)`: by characters, or by words or lines on a double or
    /// triple click.
    pub fn begin(&mut self, t: &Term, l: u64, c: usize, clicks: i64)
        requires
            t.wf(),
        ensures
            final(self)@ == sel_update(
                SelV {
                    mode: (if clicks < 1 { 0int } else if clicks > 3 { 2int } else { clicks - 1 }) as u8,
                    anchor: (l, c),
                    dragging: true,
                    ..old(self)@
                },
                t@,
                l,
                c,
            ),
            ordered(final(self)@.on),
            final(self)@.on is Some,
            clicks == 2 ==> ({
                let (lo, hi) = final(self)@.on->0;
                lo.0 == l && hi.0 == l && lo.1 <= c <= hi.1
            }),
    {
        proof {
            match t@.line_at(l) {
                Some(line) => {
                    lemma_line_at_len(t@, l);
                    lemma_extend_left_bounds(line.cells, c as int);
                    lemma_extend_right_bounds(line.cells, c as int);
                }
                None => {}
            }
        }
        self.mode = if clicks < 1 { 0 } else if clicks > 3 { 2 } else { (clicks - 1) as u8 };
        self.anchor = (l, c);
        self.dragging = true;
        self.update(t, l, c);
    }

    /// Extends the selection to `(l, c)` while a drag is under way.
    pub fn drag(&mut self, t: &Term, l: u64, c: usize)
        requires
            t.wf(),
        ensures
            final(self)@ == (if old(self)@.dragging { sel_update(old(self)@, t@, l, c) } else { old(self)@ }),
            ordered(old(self)@.on) ==> ordered(final(self)@.on),
    {
        if self.dragging {
            self.update(t, l, c);
        }
    }

    /// Ends a drag at `(l, c)`; a plain click that selected nothing leaves no selection.
    pub fn finish(&mut self, l: u64, c: usize)
        ensures
            final(self)@ == (if !old(self)@.dragging {
                old(self)@
            } else if old(self)@.mode == 0 && old(self)@.on == Some(((l, c), (l, c))) {
                SelV { dragging: false, on: None, ..old(self)@ }
            } else {
                SelV { dragging: false, ..old(self)@ }
            }),
            ordered(old(self)@.on) ==> ordered(final(self)@.on),
    {
        if !self.dragging {
            return;
        }
        self.dragging = false;
        let same = match self.on {
            Some(((al, ac), (bl, bc))) => al == l && ac == c && bl == l && bc == c,
            None => false,
        };
        if self.mode == 0 && same {
            self.on = None;
        }
    }

    /// Drops a selection that is not being dragged, as new output from the program does;
    /// says whether there was one.
    pub fn drop_on_output(&mut self) -> (dropped: bool)
        ensures
            dropped == (old(self)@.on is Some && !old(self)@.dragging),
            final(self)@ == (if dropped { SelV { on: None, ..old(self)@ } } else { old(self)@ }),
            ordered(final(self)@.on) || !ordered(old(self)@.on),
    {
        if self.on.is_some() && !self.dragging {
            self.on = None;
            true
        } else {
            false
        }
    }

    /// The text selected: the cells' characters, trailing blanks dropped, a line feed
    /// between lines that did not wrap.
    pub fn text(&self, t: &Term) -> (r: Option<Vec<u8>>)
        requires
            t.wf(),
            text_fits(self@.on, t@),
        ensures
            match r {
                None => sel_text(self@.on, t@) is None,
                Some(v) => sel_text(self@.on, t@) == Some(v@),
            },
    {
        let (al, ac, bl, bc) = match self.on {
            None => { return None; }
            Some(((al, ac), (bl, bc))) => (al, ac, bl, bc),
        };
        let ghost target = text_from(t@, al as int, al as int, ac as int, bl as int, bc as int);
        let mut out: Vec<u8> = Vec::new();
        if al > bl {
            proof { assert(out@ =~= target); }
            return Some(out);
        }
        let mut id = al;
        let mut done = false;
        proof { assert(out@ + target =~= target); }
        while !done
            invariant
                al <= id <= bl,
                text_fits(Some(((al, ac), (bl, bc))), t@),
                t.wf(),
                !done ==> out@ + text_from(t@, id as int, al as int, ac as int, bl as int, bc as int) == target,
                done ==> out@ == target,
            decreases bl - id + (if done { 0int } else { 1int }),
        {
            let ghost o = out@;
            match t.line_at(id) {
                None => {
                    done = true;
                    proof { assert(o + Seq::<u8>::empty() =~= o); }
                }
                Some(line) => {
                    let ghost lv = line@;
                    let n = line.cells.len();
                    if n == 0 {
                        if id != bl {
                            out.push(10);
                        }
                    } else {
                        let x0 = if id == al { if ac < n - 1 { ac } else { n - 1 } } else { 0 };
                        let x1 = if id == bl { if bc < n - 1 { bc } else { n - 1 } } else { n - 1 };
                        push_row(&mut out, &line.cells, x0, x1);
                        if id != bl && !line.wrapped {
                            out.push(10);
                        }
                    }
                    proof {
                        assert(out@ =~= o + line_text(lv, id as int, al as int, ac as int, bl as int, bc as int));
                    }
                    if id == bl {
                        done = true;
                        proof {
                            assert(text_from(t@, id + 1, al as int, ac as int, bl as int, bc as int) =~= Seq::<u8>::empty());
                            assert(out@ + Seq::<u8>::empty() =~= out@);
                        }
                    } else {
                        id = id + 1;
                    }
                }
            }
        }
        Some(out)
    }
}

/// From its second line on, a selection's text does not depend on where on its first line
/// it starts.
proof fn lemma_text_from_later(t: TermV, id: int, al: int, ac: int, bl: int, bc: int)
    requires
        al < id,
    ensures
        text_from(t, id, al, ac, bl, bc) == text_from(t, id, al + 1, 0, bl, bc),
    decreases bl + 1 - id,
{
    if !(id > bl || id < 0 || id > u64::MAX) {
        lemma_text_from_later(t, id + 1, al, ac, bl, bc);
    }
}

/// The text of a selection over several lines is the text of its first line, from where
/// the selection starts to the line's end; then a line feed, unless that line wrapped
/// onto the next; then the text of the rest of the selection from the next line's start.
pub proof fn text_joins_lines(t: TermV, al: u64, ac: usize, bl: u64, bc: usize)
    requires
        t.wf(),
        al < bl,
        t.line_at(al) is Some,
        t.line_at(al)->0.cells.len() > 0,
    ensures
        ({
            let l = t.line_at(al)->0;
            let last = (l.cells.len() - 1) as usize;
            sel_text(Some(((al, ac), (bl, bc))), t) == Some(
                sel_text(Some(((al, ac), (al, last))), t)->0
                    + (if l.wrapped { Seq::<u8>::empty() } else { seq![10u8] })
                    + sel_text(Some((((al + 1) as u64, 0usize), (bl, bc))), t)->0,
            )
        }),
{
    let l = t.line_at(al)->0;
    crate::vt::lemmas::lemma_line_at_len(t, al);
    let n = l.cells.len() as int;
    let last = (n - 1) as usize;
    assert(last as int == n - 1);
    let (a, c, b, d) = (al as int, ac as int, bl as int, bc as int);
    let x0 = min(c, n - 1);
    let row = row_text(l.cells.subrange(x0, n));
    assert(line_text(l, a, a, c, b, d) == row + (if l.wrapped { Seq::<u8>::empty() } else { seq![10u8] }));
    assert(line_text(l, a, a, c, a, n - 1) == row + Seq::<u8>::empty());
    assert(text_from(t, a + 1, a, c, a, n - 1) == Seq::<u8>::empty());
    assert(row + Seq::<u8>::empty() + Seq::<u8>::empty() =~= row);
    lemma_text_from_later(t, a + 1, a, c, b, d);
}

proof fn lemma_ascii_cells_bytes(cs: Seq<Cell>)
    requires
        forall|k: int| 0 <= k < cs.len() ==> ((#[trigger] cs[k]).cp == 0 || 0x20 <= cs[k].cp <= 0x7e) && cs[k].attr & TAIL == 0,
    ensures
        cells_bytes(cs) == Seq::new(cs.len(), |k: int| if cs[k].cp == 0 { 32u8 } else { cs[k].cp as u8 }),
    decreases cs.len(),
{
    if cs.len() > 0 {
        let init = cs.drop_last();
        assert forall|k: int| 0 <= k < init.len() implies ((#[trigger] init[k]).cp == 0 || 0x20 <= init[k].cp <= 0x7e) && init[k].attr & TAIL == 0 by {
            assert(init[k] == cs[k]);
        }
        lemma_ascii_cells_bytes(init);
        let c = cs.last();
        let v: u32 = if c.cp == 0 { 32 } else { c.cp };
        assert((v & 0x7f) as u8 == v as u8) by (bit_vector) requires v <= 0x7e;
        assert(cell_bytes(c) == seq![v as u8]);
        assert(cells_bytes(cs) =~= Seq::new(cs.len(), |k: int| if cs[k].cp == 0 { 32u8 } else { cs[k].cp as u8 }));
    }
}

/// The text of a selection within one line, over cells of printable ASCII or empty cells
/// and ending on a cell that shows something, is those cells' characters, one byte each, in
/// order, an empty cell read as a space.
pub proof fn ascii_selection_text(t: TermV, id: u64, a: usize, b: usize)
    requires
        t.line_at(id) is Some,
        a <= b < t.line_at(id)->0.cells.len(),
        forall|k: int| a <= k <= b ==> ((#[trigger] t.line_at(id)->0.cells[k]).cp == 0 || 0x20 <= t.line_at(id)->0.cells[k].cp <= 0x7e)
            && t.line_at(id)->0.cells[k].attr & TAIL == 0,
        t.line_at(id)->0.cells[b as int].cp != 32,
        t.line_at(id)->0.cells[b as int].cp != 0,
    ensures
        sel_text(Some(((id, a), (id, b))), t) == Some(Seq::new((b - a + 1) as nat, |k: int|
            if t.line_at(id)->0.cells[a + k].cp == 0 { 32u8 } else { t.line_at(id)->0.cells[a + k].cp as u8 })),
{
    let l = t.line_at(id)->0;
    let seg = l.cells.subrange(a as int, b + 1);
    assert(seg.last() == l.cells[b as int]);
    assert(trim_cells(seg) == seg);
    assert forall|k: int| 0 <= k < seg.len() implies ((#[trigger] seg[k]).cp == 0 || 0x20 <= seg[k].cp <= 0x7e) && seg[k].attr & TAIL == 0 by {
        assert(seg[k] == l.cells[a + k]);
    }
    lemma_ascii_cells_bytes(seg);
    assert(text_from(t, id + 1, id as int, a as int, id as int, b as int) == Seq::<u8>::empty());
    assert(Seq::new(seg.len(), |k: int| if seg[k].cp == 0 { 32u8 } else { seg[k].cp as u8 })
        =~= Seq::new((b - a + 1) as nat, |k: int| if l.cells[a + k].cp == 0 { 32u8 } else { l.cells[a + k].cp as u8 }));
    assert(row_text(seg) + Seq::<u8>::empty() + Seq::<u8>::empty() =~= row_text(seg));
}

/// Blanks at the end of a selection within one line add nothing to its text: the text is
/// that of the selection without its last cell where that cell is empty, a space or the
/// right half of a wide character.
pub proof fn trailing_blanks_add_nothing(t: TermV, id: u64, a: usize, b: usize)
    requires
        t.line_at(id) is Some,
        a < b < t.line_at(id)->0.cells.len(),
        blank_or_tail(t.line_at(id)->0.cells[b as int]),
    ensures
        sel_text(Some(((id, a), (id, b))), t) == sel_text(Some(((id, a), (id, (b - 1) as usize))), t),
{
    let l = t.line_at(id)->0;
    let seg = l.cells.subrange(a as int, b + 1);
    assert(seg.drop_last() =~= l.cells.subrange(a as int, b as int));
    assert(seg.last() == l.cells[b as int]);
    assert(trim_cells(seg) == trim_cells(seg.drop_last()));
    assert(text_from(t, id + 1, id as int, a as int, id as int, b as int) == Seq::<u8>::empty());
    assert(text_from(t, id + 1, id as int, a as int, id as int, b - 1) == Seq::<u8>::empty());
}

} // verus!

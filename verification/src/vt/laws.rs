//! What holds of the terminal across its operations.
use vstd::prelude::*;

use super::model::{TermV, LineV, min, visible, lossy_utf8, cap_utf8, lemma_cap_utf8, utf8_len, utf8_len_seq, is_control, printable, printable_run, lemma_printable_run, find_byte, all_digits, digits_value, b64_decode, clip_data};
use crate::vt::{Cell, St, OSC_MAX};

verus! {

/// The id of the `d`-th row shown leads back to that row: a line of the scrollback
/// while the view is scrolled back over it, else a line of the screen shown.
pub proof fn line_id_leads_to_row(t: TermV, d: int)
    requires
        t.wf(),
        0 <= d < t.rows,
        t.sb.len() - t.view + d <= usize::MAX,
        t.line_id(d) <= u64::MAX,
    ensures
        t.line_at(t.line_id(d) as u64) == Some(if d < t.view { t.sb[t.sb.len() - t.view + d] } else { t.scr()[d - t.view] }),
{
    let id = t.line_id(d) as u64;
    let rel = (id - t.sb_base) as usize as int;
    assert(rel == t.sb.len() - t.view + d);
    assert(t.scr().len() == t.rows);
}

/// Restoring the cursor right after saving it gives back its place, its colours and
/// attributes, its character sets and the modes, and changes no cell; in origin mode
/// the cursor must lie inside the scrolling region.
pub proof fn save_restore_round_trip(s: TermV)
    requires
        s.wf(),
        s.modes.origin ==> s.y <= s.bot,
    ensures
        ({
            let r = s.save_cursor().restore_cursor();
            &&& r.x == s.x
            &&& r.y == s.y
            &&& r.fg == s.fg
            &&& r.bg == s.bg
            &&& r.attr == s.attr
            &&& r.g0 == s.g0
            &&& r.g1 == s.g1
            &&& r.cs == s.cs
            &&& r.modes == s.modes
            &&& r.screens == s.screens
            &&& r.sb == s.sb
        }),
{
    let a = s.save_cursor();
    assert(a.saved[a.alt as int].set);
    let r = a.restore_cursor();
    assert(r.modes =~= s.modes);
}

/// A printable ASCII byte fed in the ground state, with no line end pending and the
/// ASCII character set in use, shows in the cell at the cursor in the current colours and
/// attributes.
pub proof fn printed_byte_is_shown(t: TermV, b: u8)
    requires
        t.wf(),
        printable(b),
        t.st == St::Ground,
        t.uneed == 0,
        !(if t.cs == 1 { t.g1 } else { t.g0 }),
        !t.pend,
    ensures
        t.feed(seq![b]).scr()[t.y as int].cells[t.x as int] == (Cell { cp: b as u32, fg: t.fg, bg: t.bg, attr: t.attr }),
{
    reveal(TermV::feed);
    reveal(TermV::put_run);
    reveal(TermV::chunk);
    let buf = seq![b];
    assert(super::model::printable_run(buf.drop_first()) == 0);
    assert(super::model::printable_run(buf) == 1);
    assert(buf.take(1) =~= buf);
    assert(buf.skip(1) =~= Seq::<u8>::empty());
    let (x, y) = (t.x as int, t.y as int);
    super::lemmas::lemma_scr_ok(t);
    let s1 = t.unlink_wide(y, x);
    let s2 = s1.unlink_wide(y, x);
    assert(s1.alt == t.alt && s1.x == t.x && s1.y == t.y);
    assert(s2.alt == t.alt && s2.x == t.x && s2.y == t.y);
    let s3 = s2.write_cells(y, x, buf, t.fg, t.bg, t.attr);
    assert(s3.scr()[y].cells[x] == (Cell { cp: b as u32, fg: t.fg, bg: t.bg, attr: t.attr }));
    let s4 = s3.advance(b as u32, x, 1);
    assert(s4.scr() == s3.scr());
    assert(t.chunk(buf) == s4);
    assert(buf.drop_first() =~= Seq::<u8>::empty());
    assert(t.put_run(buf) == t.chunk(buf.take(1)).put_run(buf.skip(1)));
    assert(t.feed(buf) == t.put_run(buf).feed(Seq::empty()));
}

/// A byte that ends or breaks off an OSC string: BEL, ESC, CAN or SUB.
pub open spec fn osc_end(b: u8) -> bool {
    b == 7 || b == 0x1b || b == 0x18 || b == 0x1a
}

proof fn lemma_find_at(s: Seq<u8>, b: u8, i: int, j: int)
    requires
        0 <= i <= j < s.len(),
        s[j] == b,
        forall|k: int| i <= k < j ==> s[k] != b,
    ensures
        find_byte(s, b, i) == Some(j),
    decreases j - i,
{
    if i < j {
        lemma_find_at(s, b, i + 1, j);
    }
}

/// Bytes that end nothing, fed inside an OSC string within its limit, are only collected.
proof fn lemma_osc_collect(t: TermV, s: Seq<u8>, rest: Seq<u8>)
    requires
        t.st == St::Osc,
        !t.esc_str,
        !t.osc_over,
        t.osc.len() + s.len() <= OSC_MAX,
        forall|i: int| 0 <= i < s.len() ==> !osc_end(#[trigger] s[i]),
    ensures
        t.feed(s + rest) == (TermV { osc: t.osc + s, ..t }).feed(rest),
    decreases s.len(),
{
    if s.len() == 0 {
        assert(s + rest =~= rest);
        assert(t.osc + s =~= t.osc);
        assert((TermV { osc: t.osc + s, ..t }) =~~= t);
    } else {
        reveal(TermV::feed);
        reveal(TermV::step);
        let b = s[0];
        assert((s + rest)[0] == b);
        assert(!osc_end(b));
        let t1 = t.step(b);
        assert(t1 == (TermV { osc: t.osc.push(b), ..t }));
        assert((s + rest).drop_first() =~= s.drop_first() + rest);
        assert forall|i: int| 0 <= i < s.drop_first().len() implies !osc_end(#[trigger] s.drop_first()[i]) by {
            assert(s.drop_first()[i] == s[i + 1]);
        }
        lemma_osc_collect(t1, s.drop_first(), rest);
        assert(t1.osc + s.drop_first() =~= t.osc + s);
        assert((TermV { osc: t1.osc + s.drop_first(), ..t1 }) =~~= (TermV { osc: t.osc + s, ..t }));
    }
}

proof fn lemma_digits_52()
    ensures
        digits_value(seq![53u8, 50]) == 52,
{
    let n = seq![53u8, 50];
    assert(n.drop_last() =~= seq![53u8]);
    assert(n.drop_last().drop_last() =~= Seq::<u8>::empty());
    assert(digits_value(Seq::<u8>::empty()) == 0);
    assert(digits_value(seq![53u8]) == 5);
    assert(digits_value(n) == 52);
}

/// OSC 52 fed from the ground state arrives whole at the dispatch.
proof fn lemma_feed_osc(t: TermV, body: Seq<u8>)
    requires
        t.st == St::Ground,
        t.uneed == 0,
        forall|i: int| 0 <= i < body.len() ==> !osc_end(#[trigger] body[i]),
        body.len() <= OSC_MAX,
    ensures
        t.feed(seq![27u8, 93] + body + seq![7u8])
            == (TermV { osc: body, osc_over: false, esc_str: false, st: St::Ground, ..t }).osc_dispatch(),
{
    reveal(TermV::feed);
    reveal(TermV::step);
    let buf = seq![27u8, 93] + body + seq![7u8];
    let t1 = TermV { st: St::Esc, ..t };
    assert(buf[0] == 27u8);
    assert(t.step(27) == t1);
    assert(t.feed(buf) == t1.feed(buf.drop_first()));
    let b1 = buf.drop_first();
    assert(b1[0] == 93u8);
    let t2 = TermV { osc: Seq::empty(), osc_over: false, esc_str: false, st: St::Osc, ..t1 };
    assert(t1.step(93) == t2);
    assert(t1.feed(b1) == t2.feed(b1.drop_first()));
    assert(b1.drop_first() =~= body + seq![7u8]);
    lemma_osc_collect(t2, body, seq![7u8]);
    assert(Seq::<u8>::empty() + body =~= body);
    let t3 = TermV { osc: body, ..t2 };
    let t4 = TermV { st: St::Ground, ..t3 };
    assert(t3.step(7) == t4.osc_dispatch());
    assert(seq![7u8].drop_first() =~= Seq::<u8>::empty());
    assert(t3.feed(seq![7u8]) == t3.step(7).feed(Seq::empty()));
    assert(t4 == (TermV { osc: body, osc_over: false, esc_str: false, st: St::Ground, ..t }));
}

/// What a program writes with OSC 52 (`ESC ] 52 ; selection ; data BEL`) is what the
/// clipboard is offered: the bytes that the base64 data encodes; the query `?`, and data
/// that is not base64, offer nothing new.
pub proof fn clipboard_write_reads_back(t: TermV, sel: Seq<u8>, data: Seq<u8>)
    requires
        t.wf(),
        t.st == St::Ground,
        t.uneed == 0,
        forall|i: int| 0 <= i < sel.len() ==> #[trigger] sel[i] != 59 && !osc_end(sel[i]),
        forall|i: int| 0 <= i < data.len() ==> !osc_end(#[trigger] data[i]),
        sel.len() + data.len() + 4 <= OSC_MAX,
    ensures
        ({
            let body = seq![53u8, 50, 59] + sel + seq![59u8] + data;
            let r = t.feed(seq![27u8, 93] + body + seq![7u8]);
            &&& r.clip == (if data == seq![63u8] {
                t.clip
            } else {
                match b64_decode(data) {
                    Some(v) => Some(v),
                    None => t.clip,
                }
            })
            &&& r.st == St::Ground
        }),
{
    let body = seq![53u8, 50, 59] + sel + seq![59u8] + data;
    assert forall|i: int| 0 <= i < body.len() implies !osc_end(#[trigger] body[i]) by {
        if i >= 3 && i < 3 + sel.len() {
            assert(body[i] == sel[i - 3]);
        } else if i > 3 + sel.len() {
            assert(body[i] == data[i - 4 - sel.len()]);
        }
    }
    lemma_feed_osc(t, body);
    let u = TermV { osc: body, osc_over: false, esc_str: false, st: St::Ground, ..t };
    lemma_find_at(body, 59, 0, 2);
    let num = body.take(2);
    assert(num =~= seq![53u8, 50]);
    lemma_digits_52();
    assert(all_digits(num));
    let p = body.skip(3);
    assert(p =~= sel + seq![59u8] + data);
    assert forall|k: int| 0 <= k < sel.len() implies p[k] != 59 by {
        assert(p[k] == sel[k]);
    }
    lemma_find_at(p, 59, 0, sel.len() as int);
    assert(p.skip(sel.len() as int + 1) =~= data);
    assert(clip_data(p) == (if data == seq![63u8] { None } else { b64_decode(data) }));
}

/// Bytes that end nothing, fed inside an OSC string already past its limit, change
/// nothing.
proof fn lemma_osc_skip(t: TermV, s: Seq<u8>, rest: Seq<u8>)
    requires
        t.st == St::Osc,
        !t.esc_str,
        t.osc_over,
        forall|i: int| 0 <= i < s.len() ==> !osc_end(#[trigger] s[i]),
    ensures
        t.feed(s + rest) == t.feed(rest),
    decreases s.len(),
{
    if s.len() == 0 {
        assert(s + rest =~= rest);
    } else {
        reveal(TermV::feed);
        reveal(TermV::step);
        let b = s[0];
        assert((s + rest)[0] == b);
        assert(!osc_end(b));
        assert(t.step(b) =~~= t);
        assert((s + rest).drop_first() =~= s.drop_first() + rest);
        assert forall|i: int| 0 <= i < s.drop_first().len() implies !osc_end(#[trigger] s.drop_first()[i]) by {
            assert(s.drop_first()[i] == s[i + 1]);
        }
        lemma_osc_skip(t, s.drop_first(), rest);
    }
}

/// An OSC string longer than its limit is dropped whole: it sets neither the title nor
/// the clipboard, however it would have read.
pub proof fn oversized_osc_is_dropped(t: TermV, body: Seq<u8>)
    requires
        t.wf(),
        t.st == St::Ground,
        t.uneed == 0,
        forall|i: int| 0 <= i < body.len() ==> !osc_end(#[trigger] body[i]),
        body.len() > OSC_MAX,
    ensures
        ({
            let r = t.feed(seq![27u8, 93] + body + seq![7u8]);
            &&& r.title == t.title
            &&& r.clip == t.clip
            &&& r.st == St::Ground
        }),
{
    reveal(TermV::feed);
    reveal(TermV::step);
    let buf = seq![27u8, 93] + body + seq![7u8];
    let t1 = TermV { st: St::Esc, ..t };
    assert(buf[0] == 27u8);
    assert(t.step(27) == t1);
    assert(t.feed(buf) == t1.feed(buf.drop_first()));
    let b1 = buf.drop_first();
    assert(b1[0] == 93u8);
    let t2 = TermV { osc: Seq::empty(), osc_over: false, esc_str: false, st: St::Osc, ..t1 };
    assert(t1.step(93) == t2);
    assert(t1.feed(b1) == t2.feed(b1.drop_first()));
    let head = body.take(OSC_MAX as int);
    let tail = body.skip(OSC_MAX as int);
    assert(b1.drop_first() =~= head + (tail + seq![7u8]));
    assert forall|i: int| 0 <= i < head.len() implies !osc_end(#[trigger] head[i]) by {
        assert(head[i] == body[i]);
    }
    lemma_osc_collect(t2, head, tail + seq![7u8]);
    assert(Seq::<u8>::empty() + head =~= head);
    let t3 = TermV { osc: head, ..t2 };
    let c = tail[0];
    assert(c == body[OSC_MAX as int]);
    assert(!osc_end(c));
    let t4 = TermV { osc_over: true, ..t3 };
    assert(t3.step(c) == t4);
    assert((tail + seq![7u8])[0] == c);
    assert(t3.feed(tail + seq![7u8]) == t4.feed((tail + seq![7u8]).drop_first()));
    let more = tail.drop_first();
    assert((tail + seq![7u8]).drop_first() =~= more + seq![7u8]);
    assert forall|i: int| 0 <= i < more.len() implies !osc_end(#[trigger] more[i]) by {
        assert(more[i] == body[OSC_MAX + 1 + i]);
    }
    lemma_osc_skip(t4, more, seq![7u8]);
    assert(seq![7u8].drop_first() =~= Seq::<u8>::empty());
    let t5 = TermV { st: St::Ground, ..t4 };
    assert(t4.step(7) == t5.osc_dispatch());
    assert(t4.feed(seq![7u8]) == t4.step(7).feed(Seq::empty()));
}

/// Feeding `a` and then `b` leaves the terminal as feeding `a + b` at once does,
/// wherever the split falls (inside an escape sequence or a UTF-8 character too),
/// except between two printable ASCII bytes.
pub proof fn feed_in_two_pieces(t: TermV, a: Seq<u8>, b: Seq<u8>)
    requires
        a.len() == 0 || b.len() == 0 || !printable(a.last()) || !printable(b[0]),
    ensures
        t.feed(a + b) == t.feed(a).feed(b),
    decreases a.len(),
{
    reveal(TermV::feed);
    let s = a + b;
    if a.len() == 0 {
        assert(s =~= b);
    } else if t.fast(s[0]) {
        assert(s[0] == a[0]);
        let ka = printable_run(a);
        lemma_run_within(a);
        if ka < a.len() {
            assert forall|q: int| 0 <= q < ka implies printable(#[trigger] s[q]) by {
                lemma_run_prefix(a, q);
            }
            assert(s[ka as int] == a[ka as int]);
            lemma_run_stop(a);
            lemma_printable_run(s, ka as int);
            assert(s.take(ka as int) =~= a.take(ka as int));
            assert(s.skip(ka as int) =~= a.skip(ka as int) + b);
            let a2 = a.skip(ka as int);
            assert(a2.last() == a.last());
            feed_in_two_pieces(t.put_run(a.take(ka as int)), a2, b);
        } else {
            assert forall|q: int| 0 <= q < a.len() implies printable(#[trigger] s[q]) by {
                lemma_run_prefix(a, q);
            }
            lemma_run_prefix(a, a.len() - 1);
            if b.len() > 0 {
                assert(s[a.len() as int] == b[0]);
            }
            lemma_printable_run(s, a.len() as int);
            assert(s.take(a.len() as int) =~= a);
            assert(s.skip(a.len() as int) =~= b);
            assert(a.take(a.len() as int) =~= a);
            assert(a.skip(a.len() as int) =~= Seq::<u8>::empty());
            let u = t.put_run(a);
            assert(u.feed(Seq::<u8>::empty()) == u);
        }
    } else {
        assert(s[0] == a[0]);
        let a2 = a.drop_first();
        assert(s.drop_first() =~= a2 + b);
        if a2.len() > 0 {
            assert(a2.last() == a.last());
        }
        feed_in_two_pieces(t.step(a[0]), a2, b);
    }
}

/// The leading printable run of `s` lies within `s`.
pub(crate) proof fn lemma_run_within(s: Seq<u8>)
    ensures
        printable_run(s) <= s.len(),
    decreases s.len(),
{
    if s.len() > 0 && printable(s[0]) {
        lemma_run_within(s.drop_first());
    }
}

/// Every byte of the leading printable run of `s` is printable.
pub(crate) proof fn lemma_run_prefix(s: Seq<u8>, q: int)
    requires
        0 <= q < printable_run(s),
    ensures
        printable(s[q]),
    decreases s.len(),
{
    lemma_run_within(s);
    if q > 0 {
        lemma_run_prefix(s.drop_first(), q - 1);
        assert(s.drop_first()[q - 1] == s[q]);
    }
}

/// The leading printable run of `s` ends at a byte that is not printable, or at the end.
pub(crate) proof fn lemma_run_stop(s: Seq<u8>)
    requires
        printable_run(s) < s.len(),
    ensures
        !printable(s[printable_run(s) as int]),
    decreases s.len(),
{
    if s.len() > 0 && printable(s[0]) {
        lemma_run_stop(s.drop_first());
    }
}

/// An id before the first line of the scrollback, or past the last row of the screen,
/// reaches no line.
pub proof fn ids_outside_reach_nothing(t: TermV, id: u64)
    requires
        t.wf(),
        id < t.sb_base || (t.sb_base + t.sb.len() + t.rows <= id && id - t.sb_base <= usize::MAX),
    ensures
        t.line_at(id) is None,
{
    assert(t.scr().len() == t.rows);
}

/// Pushing a line into the scrollback keeps the id of every line that stays there, and
/// gives the new line the next id after them.
pub proof fn scrollback_push_keeps_ids(t: TermV, l: LineV, id: u64)
    requires
        t.wf(),
        t.sb_cap > 0,
        t.alt == 0,
        t.lines_total() < u64::MAX,
        t.sb_push(l).sb_base <= id < t.sb_base + t.sb.len(),
    ensures
        t.sb_push(l).line_at(id) == t.line_at(id),
        t.sb_push(l).line_at(t.lines_total() as u64) == Some(
            if l.wrapped { l } else { LineV { cells: super::model::trim(l.cells, t.def_bg), wrapped: false } },
        ),
{
    let u = t.sb_push(l);
    let rel = (id - t.sb_base) as int;
    let rel2 = (id - u.sb_base) as int;
    if t.sb.len() == t.sb_cap {
        assert(u.sb[rel2] == t.sb[rel2 + 1]);
    } else {
        assert(u.sb[rel2] == t.sb[rel]);
    }
}

/// A resize to the size the terminal has already (after raising each side to at least
/// two) changes nothing.
pub proof fn resize_to_same_size_is_idle(t: TermV, cols: usize, rows: usize)
    requires
        t.wf(),
        (if cols < 2 { 2 } else { cols as int }) == t.cols,
        (if rows < 2 { 2 } else { rows as int }) == t.rows,
    ensures
        t.resize(cols, rows) == t,
{
}

/// A resize to another size keeps every cell that fits the new size, fills the cells it
/// adds with blanks in the default colours, keeps the scrollback as it is, pulls the
/// cursor inside the new size, and scrolls the view back to the bottom.
pub proof fn resize_keeps_cells(t: TermV, cols: usize, rows: usize, k: int, y: int, x: int)
    requires
        t.wf(),
        (if cols < 2 { 2 } else { cols as int }) != t.cols || (if rows < 2 { 2 } else { rows as int }) != t.rows,
        0 <= k < 2,
        0 <= y < (if rows < 2 { 2 } else { rows as int }),
        0 <= x < (if cols < 2 { 2 } else { cols as int }),
    ensures
        ({
            let u = t.resize(cols, rows);
            &&& u.cols == (if cols < 2 { 2 } else { cols as int })
            &&& u.rows == (if rows < 2 { 2 } else { rows as int })
            &&& u.sb == t.sb
            &&& u.sb_base == t.sb_base
            &&& u.x == min(t.x as int, u.cols - 1)
            &&& u.y == min(t.y as int, u.rows - 1)
            &&& u.view == 0
            &&& u.all_dirty
            &&& u.screens[k][y].cells[x] == (if y < t.rows && x < t.cols {
                t.screens[k][y].cells[x]
            } else {
                Cell { cp: 0, fg: t.def_fg, bg: t.def_bg, attr: 0 }
            })
        }),
{
    assert(t.screens[k].len() == t.rows);
    if y < t.rows {
        assert(t.screens[k][y].cells.len() == t.cols);
    }
}

/// A string that fits in `b` bytes of UTF-8 is kept whole by the cap.
proof fn lemma_cap_whole(s: Seq<char>, b: int)
    requires
        utf8_len_seq(s) <= b,
    ensures
        cap_utf8(s, b) == s,
    decreases s.len(),
{
    if s.len() > 0 {
        lemma_cap_whole(s.drop_first(), b - utf8_len(s[0]));
        assert(seq![s[0]] + s.drop_first() =~= s);
    }
}

/// A title set with OSC 2 (`ESC ] 2 ; payload BEL`) is the payload decoded (invalid UTF-8
/// replaced), with its control characters dropped and cut to the longest prefix that fits
/// in 255 bytes: it holds no control character, and it is all of the cleaned payload
/// where that fits.
pub proof fn osc_title_is_clean(t: TermV, p: Seq<u8>)
    requires
        t.st == St::Ground,
        t.uneed == 0,
        forall|i: int| 0 <= i < p.len() ==> !osc_end(#[trigger] p[i]),
        p.len() + 2 <= OSC_MAX,
    ensures
        ({
            let r = t.feed(seq![27u8, 93] + (seq![50u8, 59] + p) + seq![7u8]);
            let f = visible(lossy_utf8(p));
            let s = cap_utf8(f, 255);
            &&& r.title == Some(s)
            &&& s.len() <= f.len()
            &&& forall|i: int| 0 <= i < s.len() ==> #[trigger] s[i] == f[i]
            &&& forall|i: int| 0 <= i < s.len() ==> !is_control(#[trigger] s[i])
            &&& utf8_len_seq(s) <= 255
            &&& utf8_len_seq(f) <= 255 ==> s == f
        }),
{
    let body = seq![50u8, 59] + p;
    assert forall|i: int| 0 <= i < body.len() implies !osc_end(#[trigger] body[i]) by {
        if i >= 2 {
            assert(body[i] == p[i - 2]);
        }
    }
    lemma_feed_osc(t, body);
    assert(body[0] == 50u8);
    assert(body[1] == 59u8);
    lemma_find_at(body, 59, 0, 1);
    let num = body.take(1);
    assert(num =~= seq![50u8]);
    assert(num.drop_last() =~= Seq::<u8>::empty());
    assert(digits_value(Seq::<u8>::empty()) == 0);
    assert(num.last() == 50u8);
    assert(digits_value(num) == 2);
    assert(body.skip(2) =~= p);
    let f = visible(lossy_utf8(p));
    let s = cap_utf8(f, 255);
    lemma_cap_utf8(f, 255);
    assert forall|i: int| 0 <= i < s.len() implies !is_control(#[trigger] s[i]) by {
        assert(s[i] == f[i]);
        lossy_utf8(p).lemma_filter_pred(|c: char| !is_control(c), i);
    }
    if utf8_len_seq(f) <= 255 {
        lemma_cap_whole(f, 255);
    }
}

/// A line pushed into the scrollback: nothing happens without a scrollback or on the
/// alternate screen; else the line, without its trailing blank cells unless it wrapped,
/// comes last, the oldest line leaves when the scrollback is full (the ids of the rest
/// stay, as the base moves up by one), and a view scrolled back keeps showing the same
/// lines where it can.
pub proof fn scrollback_push(t: TermV, l: LineV)
    requires
        t.wf(),
        t.lines_total() < u64::MAX,
    ensures
        ({
            let u = t.sb_push(l);
            &&& (t.sb_cap == 0 || t.alt != 0) ==> u == t
            &&& !(t.sb_cap == 0 || t.alt != 0) ==> {
                &&& u.sb.last() == (if l.wrapped { l } else { LineV { cells: super::model::trim(l.cells, t.def_bg), wrapped: false } })
                &&& u.sb.len() == min(t.sb.len() + 1int, t.sb_cap as int)
                &&& u.sb_base == t.sb_base + (if t.sb.len() == t.sb_cap { 1int } else { 0int })
                &&& forall|i: int| 0 <= i < u.sb.len() - 1 ==> #[trigger] u.sb[i] == t.sb[i + u.sb_base - t.sb_base]
                &&& u.view == (if t.view > 0 { min(t.view + 1, u.sb.len() as int) } else { 0 })
                &&& u == (TermV { sb: u.sb, sb_base: u.sb_base, view: u.view, ..t })
            }
        }),
{
    let u = t.sb_push(l);
    if !(t.sb_cap == 0 || t.alt != 0) {
        assert forall|i: int| 0 <= i < u.sb.len() - 1 implies #[trigger] u.sb[i] == t.sb[i + u.sb_base - t.sb_base] by {
            if t.sb.len() == t.sb_cap {
                assert(u.sb[i] == t.sb.drop_first()[i]);
            }
        }
    }
}

/// `CSI 2 K` blanks every cell of the cursor's row, wherever the cursor stands on it, in
/// the current colours, and leaves the cursor and every other row as they were.
pub proof fn erase_whole_line(t: TermV)
    requires
        t.wf(),
        t.st == St::Ground,
        t.uneed == 0,
    ensures
        ({
            let u = t.feed(seq![27u8, 91, 50, 75]);
            &&& u.x == t.x
            &&& u.y == t.y
            &&& u.scr()[t.y as int].cells.len() == t.cols
            &&& forall|x: int| 0 <= x < t.cols ==> #[trigger] u.scr()[t.y as int].cells[x] == (Cell { cp: 0, fg: t.fg, bg: t.bg, attr: 0 })
            &&& forall|r: int| 0 <= r < t.rows && r != t.y ==> #[trigger] u.scr()[r] == t.scr()[r]
        }),
{
    let u = lemma_feed_el(t, 2);
    super::lemmas::lemma_scr_ok(t);
    assert(t.scr()[t.y as int].cells.len() == t.cols);
    assert forall|r: int| 0 <= r < t.rows && r != t.y implies #[trigger] u.scr()[r] == t.scr()[r] by {
        assert(u.scr() == t.scr().update(t.y as int, u.scr()[t.y as int]));
    }
}

/// The state in which `CSI p` followed by a final byte is executed, fed from `t`.
pub open spec fn csi_state(t: TermV, p: u8) -> TermV {
    TermV { params: Seq::new(16, |i: int| 0u32).update(0, p as u32), np: 0, seen: true, colon: 0, privc: 0, inter: 0, st: St::Ground, ..t }
}

/// `CSI p fin` fed from the ground state, for a digit `p`, executes `fin` with `p` as its
/// one parameter.
proof fn lemma_feed_csi(t: TermV, p: u8, fin: u8)
    requires
        t.st == St::Ground,
        t.uneed == 0,
        p <= 9,
        0x40 <= fin <= 0x7e,
    ensures
        t.feed(seq![27u8, 91, (48 + p) as u8, fin]) == csi_state(t, p).csi(fin),
        csi_state(t, p).param(0, 0) == p,
{
    let d = (48 + p) as u8;
    let s0 = seq![27u8, 91, d, fin];
    let t1 = TermV { st: St::Esc, ..t };
    assert(s0[0] == 27u8);
    assert(t.step(27) == t1) by { reveal(TermV::step); }
    assert(!t.fast(27));
    assert(t.feed(s0) == t1.feed(s0.drop_first())) by { reveal(TermV::feed); }
    let s1 = s0.drop_first();
    assert(s1 =~= seq![91u8, d, fin]);
    let t2 = TermV { params: Seq::new(16, |i: int| 0u32), np: 0, seen: false, colon: 0, privc: 0, inter: 0, st: St::Csi, ..t1 };
    assert(t1.step(91) == t2) by { reveal(TermV::step); }
    assert(t1.feed(s1) == t2.feed(s1.drop_first())) by { reveal(TermV::feed); }
    let s2 = s1.drop_first();
    assert(s2 =~= seq![d, fin]);
    let t3 = TermV { params: t2.params.update(0, p as u32), seen: true, ..t2 };
    assert(t2.params[0] == 0u32);
    assert(t2.step(d) == t3) by { reveal(TermV::step); }
    assert(t2.feed(s2) == t3.feed(s2.drop_first())) by { reveal(TermV::feed); }
    let s3 = s2.drop_first();
    assert(s3 =~= seq![fin]);
    let t4 = csi_state(t, p);
    assert(t4 == TermV { st: St::Ground, ..t3 });
    let u = t4.csi(fin);
    assert(t3.step(fin) == u) by { reveal(TermV::step); }
    assert(s3.drop_first() =~= Seq::<u8>::empty());
    assert(t3.feed(s3) == u.feed(Seq::<u8>::empty())) by { reveal(TermV::feed); }
    assert(u.feed(Seq::<u8>::empty()) == u) by { reveal(TermV::feed); }
}

/// `CSI p K` fed from the ground state, for `p` of 0, 1 or 2, comes to the erase that
/// the parameter names.
proof fn lemma_feed_el(t: TermV, p: u8) -> (u: TermV)
    requires
        t.st == St::Ground,
        t.uneed == 0,
        p <= 2,
    ensures
        u == t.feed(seq![27u8, 91, (48 + p) as u8, 75]),
        u == csi_state(t, p).clear_cells(t.y as int, if p == 1 { 0 } else if p == 0 { t.x as int } else { 0 }, if p == 1 { t.x + 1 } else { t.cols as int }),
{
    lemma_feed_csi(t, p, 75);
    let t4 = csi_state(t, p);
    let u = t4.clear_cells(t.y as int, if p == 1 { 0 } else if p == 0 { t.x as int } else { 0 }, if p == 1 { t.x + 1 } else { t.cols as int });
    assert(t4.csi_erase(75) == u) by { reveal(TermV::csi_erase); }
    u
}

/// Clearing the rows `lo..hi` blanks every cell of them and leaves the other rows.
proof fn lemma_clear_rows_cells(s: TermV, lo: int, hi: int)
    requires
        s.wf(),
        0 <= lo,
        hi <= s.rows,
    ensures
        s.clear_rows(lo, hi).wf(),
        s.clear_rows(lo, hi).x == s.x,
        s.clear_rows(lo, hi).y == s.y,
        s.clear_rows(lo, hi).fg == s.fg,
        s.clear_rows(lo, hi).bg == s.bg,
        forall|r: int, x: int| 0 <= r < s.rows && 0 <= x < s.cols ==> #[trigger] s.clear_rows(lo, hi).scr()[r].cells[x] == (
            if lo <= r < hi { s.blank() } else { s.scr()[r].cells[x] }),
    decreases hi - lo,
{
    super::lemmas::lemma_clear_rows(s, lo, hi);
    if lo < hi {
        let s1 = s.clear_cells(lo, 0, s.cols as int);
        super::lemmas::lemma_clear_cells(s, lo, 0, s.cols as int);
        lemma_clear_rows_cells(s1, lo + 1, hi);
        super::lemmas::lemma_scr_ok(s);
        assert forall|r: int, x: int| 0 <= r < s.rows && 0 <= x < s.cols implies #[trigger] s1.scr()[r].cells[x] == (
            if r == lo { s.blank() } else { s.scr()[r].cells[x] }) by {
            assert(s1.scr() == s.scr().update(lo, s1.scr()[lo]));
            assert(s.scr()[r].cells.len() == s.cols);
        }
    }
}

/// `CSI 2 J` blanks every cell of the screen in the current colours and leaves the cursor
/// where it was.
pub proof fn erase_whole_screen(t: TermV)
    requires
        t.wf(),
        t.st == St::Ground,
        t.uneed == 0,
    ensures
        ({
            let u = t.feed(seq![27u8, 91, 50, 74]);
            &&& u.x == t.x
            &&& u.y == t.y
            &&& forall|r: int, x: int| 0 <= r < t.rows && 0 <= x < t.cols
                ==> #[trigger] u.scr()[r].cells[x] == (Cell { cp: 0, fg: t.fg, bg: t.bg, attr: 0 })
        }),
{
    lemma_feed_csi(t, 2, 74);
    let t4 = csi_state(t, 2);
    assert(t4.wf()) by {
        assert forall|i: int| 0 <= i < 16 implies #[trigger] t4.params[i] <= 65535 by {}
    }
    assert(t4.csi(74) == t4.clear_rows(0, t.rows as int)) by { reveal(TermV::csi_erase); }
    lemma_clear_rows_cells(t4, 0, t.rows as int);
}

/// `CSI 0 K` blanks the cursor's row from the cursor to its end, `CSI 1 K` from its start
/// to the cursor (both included): the other cells of the row, the other rows and the
/// cursor stay as they were.
pub proof fn erase_in_line(t: TermV, p: u8)
    requires
        t.wf(),
        t.st == St::Ground,
        t.uneed == 0,
        p <= 1,
    ensures
        ({
            let u = t.feed(seq![27u8, 91, (48 + p) as u8, 75]);
            &&& u.x == t.x
            &&& u.y == t.y
            &&& u.scr()[t.y as int].cells.len() == t.cols
            &&& forall|x: int| 0 <= x < t.cols ==> #[trigger] u.scr()[t.y as int].cells[x] == (
                if (p == 0 && x >= t.x) || (p == 1 && x <= t.x) {
                    Cell { cp: 0, fg: t.fg, bg: t.bg, attr: 0 }
                } else {
                    t.scr()[t.y as int].cells[x]
                })
            &&& forall|r: int| 0 <= r < t.rows && r != t.y ==> #[trigger] u.scr()[r] == t.scr()[r]
        }),
{
    let u = lemma_feed_el(t, p);
    super::lemmas::lemma_scr_ok(t);
    assert(t.scr()[t.y as int].cells.len() == t.cols);
    assert forall|r: int| 0 <= r < t.rows && r != t.y implies #[trigger] u.scr()[r] == t.scr()[r] by {
        assert(u.scr() == t.scr().update(t.y as int, u.scr()[t.y as int]));
    }
}

} // verus!

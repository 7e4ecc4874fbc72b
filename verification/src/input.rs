//! Keys, mouse reports, pastes, dropped files and the selection.
use vstd::prelude::*;
use vstd::utf8::{encode_utf8, encode_scalar, has_width_1_encoding};

use crate::text::{dec, sdec, push_all, push_dec, push_sdec};
use crate::vt::{Modes, Term, string_from_chars};
use crate::vt::model::TermV;
use crate::vt::model::{is_control, visible};

pub mod sel;
pub mod keys;




verus! {

/// AppKit's modifier flags.
pub const SHIFT: u64 = 0x2_0000;
pub const CTRL: u64 = 0x4_0000;
pub const ALT: u64 = 0x8_0000;
pub const CMD: u64 = 0x10_0000;

/// Mouse events: press, drag, release; and the buttons of the wheel.
pub const DOWN: u8 = 0;
pub const DRAG: u8 = 1;
pub const UP: u8 = 2;
pub const WHEEL_UP: i64 = 64;
pub const WHEEL_DOWN: i64 = 65;

/// The xterm modifier parameter: 1, plus 1 for Shift, 2 for Alt and 4 for Ctrl.
pub open spec fn mod_code_spec(m: u64) -> u32 {
    (1 + (if m & SHIFT != 0 { 1int } else { 0 }) + (if m & ALT != 0 { 2int } else { 0 })
        + (if m & CTRL != 0 { 4int } else { 0 })) as u32
}

/// The xterm modifier parameter of the modifier flags `m`.
pub fn mod_code(m: u64) -> (r: u32)
    ensures
        r == mod_code_spec(m),
        1 <= r <= 8,
{
    1 + (if m & SHIFT != 0 { 1u32 } else { 0 }) + (if m & ALT != 0 { 2u32 } else { 0 })
        + (if m & CTRL != 0 { 4u32 } else { 0 })
}

/// `ESC [ 200 ~` or `ESC [ 201 ~`, the marks of a bracketed paste.
pub open spec fn bracket(open: bool) -> Seq<u8> {
    seq![27u8, 91, 50, 48, if open { 48u8 } else { 49u8 }, 126]
}

/// The bracket mark, where bracketed paste is on.
pub open spec fn bracket_if(on: bool, open: bool) -> Seq<u8> {
    if on { bracket(open) } else { Seq::empty() }
}

/// `acc` with the byte `c` of a cleaned paste added; a byte `80` to `9F` right after a
/// `C2` takes the `C2` away with it, so that no UTF-8 encoded C1 control forms where
/// dropped bytes stood between its two halves.
pub open spec fn emit(acc: Seq<u8>, c: u8) -> Seq<u8> {
    if 0x80 <= c <= 0x9f && acc.len() > 0 && acc.last() == 0xc2 { acc.drop_last() } else { acc.push(c) }
}

/// The bytes of a paste from index `i` on, cleaned and added to `acc`: CR LF becomes CR,
/// LF becomes CR, DEL and the C0 controls but TAB and CR are dropped, and so are the
/// UTF-8 encoded C1 controls (`C2 80` to `C2 9F`).
pub open spec fn paste_from(raw: Seq<u8>, i: int, acc: Seq<u8>) -> Seq<u8>
    decreases raw.len() - i,
{
    if i < 0 || i >= raw.len() {
        acc
    } else {
        let c = raw[i];
        if c == 13 && i + 1 < raw.len() && raw[i + 1] == 10 {
            paste_from(raw, i + 1, acc)
        } else if c == 10 {
            paste_from(raw, i + 1, emit(acc, 13))
        } else if c == 0x7f {
            paste_from(raw, i + 1, acc)
        } else if c <= 0x1f && c != 9 && c != 13 {
            paste_from(raw, i + 1, acc)
        } else if c == 0xc2 && i + 1 < raw.len() && 0x80 <= raw[i + 1] <= 0x9f {
            paste_from(raw, i + 2, acc)
        } else {
            paste_from(raw, i + 1, emit(acc, c))
        }
    }
}

/// The bytes of a paste, cleaned.
pub open spec fn paste_body(raw: Seq<u8>) -> Seq<u8> {
    paste_from(raw, 0, Seq::empty())
}

/// A byte that a cleaned paste may hold: TAB, CR, or neither a C0 control nor DEL.
pub open spec fn paste_safe(b: u8) -> bool {
    b == 9 || b == 13 || (b >= 0x20 && b != 0x7f)
}

/// Bytes that can act as no control: only safe bytes, and no `C2` followed by `80` to
/// `9F`.
pub open spec fn inert(s: Seq<u8>) -> bool {
    &&& forall|k: int| 0 <= k < s.len() ==> paste_safe(#[trigger] s[k])
    &&& forall|k: int| 0 <= k < s.len() - 1 ==> !(#[trigger] s[k] == 0xc2 && 0x80 <= s[k + 1] <= 0x9f)
}

proof fn lemma_emit_inert(acc: Seq<u8>, c: u8)
    requires
        inert(acc),
        paste_safe(c),
    ensures
        inert(emit(acc, c)),
{
    let e = emit(acc, c);
    if 0x80 <= c <= 0x9f && acc.len() > 0 && acc.last() == 0xc2 {
        assert forall|k: int| 0 <= k < e.len() - 1 implies !(#[trigger] e[k] == 0xc2 && 0x80 <= e[k + 1] <= 0x9f) by {
            assert(e[k] == acc[k] && e[k + 1] == acc[k + 1]);
        }
        assert forall|k: int| 0 <= k < e.len() implies paste_safe(#[trigger] e[k]) by {
            assert(e[k] == acc[k]);
        }
    } else {
        assert forall|k: int| 0 <= k < e.len() - 1 implies !(#[trigger] e[k] == 0xc2 && 0x80 <= e[k + 1] <= 0x9f) by {
            assert(e[k] == acc[k]);
            if k < acc.len() - 1 {
                assert(e[k + 1] == acc[k + 1]);
            } else {
                assert(e[k + 1] == c);
            }
        }
        assert forall|k: int| 0 <= k < e.len() implies paste_safe(#[trigger] e[k]) by {
            if k < acc.len() {
                assert(e[k] == acc[k]);
            }
        }
    }
}

proof fn lemma_paste_inert(raw: Seq<u8>, i: int, acc: Seq<u8>)
    requires
        inert(acc),
    ensures
        inert(paste_from(raw, i, acc)),
    decreases raw.len() - i,
{
    if 0 <= i < raw.len() {
        let c = raw[i];
        if c == 13 && i + 1 < raw.len() && raw[i + 1] == 10 {
            lemma_paste_inert(raw, i + 1, acc);
        } else if c == 10 {
            lemma_emit_inert(acc, 13);
            lemma_paste_inert(raw, i + 1, emit(acc, 13));
        } else if c == 0x7f || (c <= 0x1f && c != 9 && c != 13) {
            lemma_paste_inert(raw, i + 1, acc);
        } else if c == 0xc2 && i + 1 < raw.len() && 0x80 <= raw[i + 1] <= 0x9f {
            lemma_paste_inert(raw, i + 2, acc);
        } else {
            lemma_emit_inert(acc, c);
            lemma_paste_inert(raw, i + 1, emit(acc, c));
        }
    }
}

/// A cleaned paste holds no ESC, no line feed, no C0 control but TAB and CR, no DEL, and
/// no UTF-8 encoded C1 control: clipboard contents cannot smuggle an escape sequence or
/// submit a line.
pub proof fn paste_is_inert(raw: Seq<u8>)
    ensures
        inert(paste_body(raw)),
{
    lemma_paste_inert(raw, 0, Seq::empty());
}

/// Adds the byte `c` to a cleaned paste.
fn emit_byte(b: &mut Vec<u8>, c: u8)
    ensures
        final(b)@ == emit(old(b)@, c),
{
    if 0x80 <= c && c <= 0x9f && b.len() > 0 && b[b.len() - 1] == 0xc2 {
        b.pop();
        proof { assert(b@ =~= old(b)@.drop_last()); }
    } else {
        b.push(c);
    }
}

/// Appends the bracketed-paste mark to `out`.
fn push_bracket(out: &mut Vec<u8>, open: bool)
    ensures
        final(out)@ == old(out)@ + bracket(open),
{
    let last: u8 = if open { 48 } else { 49 };
    let m = vec![27u8, 91, 50, 48, last, 126];
    push_all(out, m.as_slice());
}

/// Cleans pasted bytes so that they cannot act as terminal input of their own, and
/// brackets them when the program asked for bracketed paste.
pub fn clean_paste(raw: &[u8], bracketed: bool) -> (out: Vec<u8>)
    ensures
        out@ == bracket_if(bracketed, true) + paste_body(raw@) + bracket_if(bracketed, false),
{
    let mut body: Vec<u8> = Vec::new();
    let mut i: usize = 0;
    while i < raw.len()
        invariant
            i <= raw@.len(),
            paste_from(raw@, i as int, body@) == paste_body(raw@),
        decreases raw@.len() - i,
    {
        let c = raw[i];
        if c == 13 && i + 1 < raw.len() && raw[i + 1] == 10 {
            i = i + 1;
        } else if c == 10 {
            emit_byte(&mut body, 13);
            i = i + 1;
        } else if c == 0x7f {
            i = i + 1;
        } else if c <= 0x1f && c != 9 && c != 13 {
            i = i + 1;
        } else if c == 0xc2 && i + 1 < raw.len() && 0x80 <= raw[i + 1] && raw[i + 1] <= 0x9f {
            i = i + 2;
        } else {
            emit_byte(&mut body, c);
            i = i + 1;
        }
    }
    let mut out: Vec<u8> = Vec::new();
    if bracketed {
        push_bracket(&mut out, true);
    }
    push_all(&mut out, body.as_slice());
    if bracketed {
        push_bracket(&mut out, false);
    }
    proof { assert(out@ =~= bracket_if(bracketed, true) + paste_body(raw@) + bracket_if(bracketed, false)); }
    out
}

/// A character that needs no quoting for the shell: an ASCII letter or digit, or one
/// of `_-./+:@%=,`.
pub open spec fn safe_char(c: char) -> bool {
    let u = c as u32;
    (48 <= u <= 57) || (65 <= u <= 90) || (97 <= u <= 122) || u == 95 || u == 45 || u == 46 || u == 47
        || u == 43 || u == 58 || u == 64 || u == 37 || u == 61 || u == 44
}

pub open spec fn all_safe(s: Seq<char>) -> bool {
    s.len() > 0 && forall|i: int| 0 <= i < s.len() ==> safe_char(#[trigger] s[i])
}

/// `s` with each `'` written as `'\''`, for use inside single quotes.
pub open spec fn escape_quotes(s: Seq<char>) -> Seq<char>
    decreases s.len(),
{
    if s.len() == 0 {
        Seq::empty()
    } else {
        escape_quotes(s.drop_last()) + (if s.last() == '\'' { seq!['\'', '\\', '\'', '\''] } else { seq![s.last()] })
    }
}

/// `s` as one shell word: as it is when every character is safe, else in single quotes.
pub open spec fn quote(s: Seq<char>) -> Seq<char> {
    if all_safe(s) { s } else { seq!['\''] + escape_quotes(s) + seq!['\''] }
}

/// The characters of `s`, in order.
pub(crate) fn str_chars(s: &str) -> (v: Vec<char>)
    ensures
        v@ == s@,
{
    let mut v: Vec<char> = Vec::new();
    for c in it: s.chars()
        invariant
            v@ == it.seq().take(it.index() as int),
            it.seq() == s@,
    {
        v.push(c);
    }
    v
}

fn is_safe_char(c: char) -> (r: bool)
    ensures
        r == safe_char(c),
{
    let u = c as u32;
    (48 <= u && u <= 57) || (65 <= u && u <= 90) || (97 <= u && u <= 122) || u == 95 || u == 45 || u == 46
        || u == 47 || u == 43 || u == 58 || u == 64 || u == 37 || u == 61 || u == 44
}

/// The characters of `s` as one shell word.
fn quote_chars(s: &Vec<char>) -> (q: Vec<char>)
    ensures
        q@ == quote(s@),
{
    let mut safe = s.len() > 0;
    let mut i: usize = 0;
    while i < s.len()
        invariant
            i <= s@.len(),
            safe == (s@.len() > 0 && forall|k: int| 0 <= k < i ==> safe_char(#[trigger] s@[k])),
        decreases s@.len() - i,
    {
        safe = safe && is_safe_char(s[i]);
        i = i + 1;
    }
    if safe {
        let mut q: Vec<char> = Vec::new();
        let mut j: usize = 0;
        while j < s.len()
            invariant
                j <= s@.len(),
                q@ == s@.take(j as int),
            decreases s@.len() - j,
        {
            q.push(s[j]);
            j = j + 1;
            proof { assert(q@ =~= s@.take(j as int)); }
        }
        proof { assert(s@.take(s@.len() as int) =~= s@); }
        return q;
    }
    let mut q: Vec<char> = Vec::new();
    q.push('\'');
    let mut j: usize = 0;
    while j < s.len()
        invariant
            j <= s@.len(),
            q@ == seq!['\''] + escape_quotes(s@.take(j as int)),
        decreases s@.len() - j,
    {
        let c = s[j];
        proof { assert(s@.take(j + 1).drop_last() =~= s@.take(j as int)); }
        let ghost q0 = q@;
        if c == '\'' {
            q.push('\'');
            q.push('\\');
            q.push('\'');
            q.push('\'');
        } else {
            q.push(c);
        }
        j = j + 1;
        proof {
            assert(q@ =~= q0 + (if c == '\'' { seq!['\'', '\\', '\'', '\''] } else { seq![c] }));
            assert(s@.take(j as int).last() == c);
        }
    }
    q.push('\'');
    proof { assert(s@.take(s@.len() as int) =~= s@); }
    q
}

/// `s` as one shell word: unchanged when it is made of safe characters only, else in
/// single quotes with every `'` written as `'\''`.
pub fn shell_quote(s: &str) -> (r: String)
    ensures
        r@ == quote(s@),
{
    let cs = str_chars(s);
    let q = quote_chars(&cs);
    string_from_chars(&q)
}

/// The words of `ps` after dropping control characters and quoting, joined by spaces.
pub open spec fn quoted_paths(ps: Seq<Seq<char>>) -> Seq<char>
    decreases ps.len(),
{
    if ps.len() == 0 {
        Seq::empty()
    } else if ps.len() == 1 {
        quote(visible(ps[0]))
    } else {
        quoted_paths(ps.drop_last()) + seq![' '] + quote(visible(ps.last()))
    }
}

pub open spec fn strings_view(ps: Seq<String>) -> Seq<Seq<char>> {
    Seq::new(ps.len(), |i: int| ps[i]@)
}

/// The characters of `s` that are not control characters.
fn visible_chars(s: &Vec<char>) -> (v: Vec<char>)
    ensures
        v@ == visible(s@),
{
    let mut v: Vec<char> = Vec::new();
    let mut i: usize = 0;
    while i < s.len()
        invariant
            i <= s@.len(),
            v@ == visible(s@.take(i as int)),
        decreases s@.len() - i,
    {
        let c = s[i];
        proof {
            reveal(Seq::filter);
            assert(s@.take(i + 1).drop_last() =~= s@.take(i as int));
            assert(s@.take(i + 1).last() == c);
        }
        let u = c as u32;
        if !(u < 0x20 || (0x7f <= u && u < 0xa0)) {
            v.push(c);
        }
        i = i + 1;
    }
    proof { assert(s@.take(s@.len() as int) =~= s@); }
    v
}

/// The bytes typed for files dropped on the window: each path stripped of control
/// characters and quoted for the shell, the paths joined by spaces, a space after the
/// last, all of it bracketed when bracketed paste is on.
pub fn drop_paths(paths: &[String], bracketed: bool) -> (out: Vec<u8>)
    ensures
        out@ == bracket_if(bracketed, true) + encode_utf8(quoted_paths(strings_view(paths@))) + seq![32u8]
            + bracket_if(bracketed, false),
{
    let ghost ps = strings_view(paths@);
    let mut joined: Vec<char> = Vec::new();
    let mut i: usize = 0;
    while i < paths.len()
        invariant
            i <= paths@.len(),
            ps == strings_view(paths@),
            joined@ == quoted_paths(ps.take(i as int)),
        decreases paths@.len() - i,
    {
        let cs = str_chars(paths[i].as_str());
        let clean = visible_chars(&cs);
        let q = quote_chars(&clean);
        let ghost j0 = joined@;
        if i > 0 {
            joined.push(' ');
        }
        let mut k: usize = 0;
        let ghost j1 = joined@;
        while k < q.len()
            invariant
                k <= q@.len(),
                joined@ == j1 + q@.take(k as int),
            decreases q@.len() - k,
        {
            joined.push(q[k]);
            k = k + 1;
            proof { assert(joined@ =~= j1 + q@.take(k as int)); }
        }
        i = i + 1;
        proof {
            assert(q@.take(q@.len() as int) =~= q@);
            assert(ps.take(i as int).drop_last() =~= ps.take(i - 1));
            assert(ps.take(i as int).last() == paths@[i - 1]@);
            if i == 1 {
                assert(ps.take(i as int)[0] == paths@[0]@);
                assert(joined@ =~= quoted_paths(ps.take(i as int)));
            } else {
                assert(joined@ =~= quoted_paths(ps.take(i as int)));
            }
        }
    }
    proof { assert(ps.take(paths@.len() as int) =~= ps); }
    let s = string_from_chars(&joined);
    let mut out: Vec<u8> = Vec::new();
    if bracketed {
        push_bracket(&mut out, true);
    }
    push_all(&mut out, s.as_str().as_bytes());
    out.push(32);
    if bracketed {
        push_bracket(&mut out, false);
    }
    proof {
        assert(out@ =~= bracket_if(bracketed, true) + encode_utf8(quoted_paths(ps)) + seq![32u8]
            + bracket_if(bracketed, false));
    }
    out
}

/// The button number of a mouse report: the button plus 4 for Shift, 8 for Alt,
/// 16 for Ctrl and 32 for a drag.
pub open spec fn report_button(btn: i64, kind: u8, mods: u64) -> int {
    btn + (if mods & SHIFT != 0 { 4int } else { 0 }) + (if mods & ALT != 0 { 8int } else { 0 })
        + (if mods & CTRL != 0 { 16int } else { 0 }) + (if kind == DRAG { 32int } else { 0 })
}

/// `ESC [ < b ; x ; y M` (or `m` for a release), an SGR mouse report.
pub open spec fn mouse_bytes(btn: i64, kind: u8, mods: u64, gx: usize, gy: usize) -> Seq<u8> {
    seq![27u8, 91, 60] + sdec(report_button(btn, kind, mods)) + seq![59u8] + dec((gx + 1) as nat) + seq![59u8]
        + dec((gy + 1) as nat) + seq![if kind == UP { 109u8 } else { 77u8 }]
}

/// `c`, held below `n`.
pub open spec fn clamp_cell(c: int, n: int) -> int {
    if c < n - 1 { c } else { n - 1 }
}

/// The cell under the pixel `(x, y)` of the frame buffer, whose grid of cells of `cw` by
/// `ch` lies `pad` pixels in: held within the `cols` by `rows` grid.
pub fn cell(x: usize, y: usize, pad: usize, cw: usize, ch: usize, cols: usize, rows: usize) -> (r: (usize, usize))
    requires
        cw >= 1,
        ch >= 1,
        cols >= 1,
        rows >= 1,
    ensures
        r.0 == clamp_cell(if x > pad { (x - pad) / cw as int } else { 0 }, cols as int),
        r.1 == clamp_cell(if y > pad { (y - pad) / ch as int } else { 0 }, rows as int),
{
    let gx = if x > pad { x - pad } else { 0 };
    let gy = if y > pad { y - pad } else { 0 };
    let cx = gx / cw;
    let cy = gy / ch;
    (if cx < cols - 1 { cx } else { cols - 1 }, if cy < rows - 1 { cy } else { rows - 1 })
}

/// The SGR mouse report of a press, drag or release at cell `(gx, gy)`; none when the
/// program did not ask for SGR reports, or for a drag when it asked for clicks only.
pub fn mouse_report(btn: i64, kind: u8, mods: u64, gx: usize, gy: usize, m: &Modes) -> (r: Option<Vec<u8>>)
    requires
        btn <= i64::MAX - 60,
        gx < usize::MAX,
        gy < usize::MAX,
    ensures
        r is None <==> (!m.sgr_mouse || (kind == DRAG && m.mouse < 1002)),
        r matches Some(v) ==> v@ == mouse_bytes(btn, kind, mods, gx, gy),
{
    if !m.sgr_mouse {
        return None;
    }
    let mut b = btn;
    if mods & SHIFT != 0 {
        b = b + 4;
    }
    if mods & ALT != 0 {
        b = b + 8;
    }
    if mods & CTRL != 0 {
        b = b + 16;
    }
    if kind == DRAG {
        if m.mouse < 1002 {
            return None;
        }
        b = b + 32;
    }
    let fin: u8 = if kind == UP { 109 } else { 77 };
    proof { assert(b == report_button(btn, kind, mods)); }
    Some(sgr_report(b, gx, gy, fin))
}

/// Whether mouse events go to the program: it asked for them, Shift is not held, and the
/// live screen is shown.
pub open spec fn reports_spec(m: Modes, mods: u64, view: usize) -> bool {
    m.mouse != 0 && mods & SHIFT == 0 && view == 0
}

/// Whether mouse events go to the program rather than to the selection and the
/// scrollback.
pub fn reports_mouse(m: &Modes, mods: u64, view: usize) -> (b: bool)
    ensures
        b == reports_spec(*m, mods, view),
{
    m.mouse != 0 && mods & SHIFT == 0 && view == 0
}

/// `s` `n` times over.
pub open spec fn repeat(s: Seq<u8>, n: nat) -> Seq<u8>
    decreases n,
{
    if n == 0 { Seq::empty() } else { repeat(s, (n - 1) as nat) + s }
}

fn repeat_bytes(v: &Vec<u8>, n: usize) -> (r: Vec<u8>)
    ensures
        r@ == repeat(v@, n as nat),
{
    let mut r: Vec<u8> = Vec::new();
    let mut k: usize = 0;
    while k < n
        invariant
            k <= n,
            r@ == repeat(v@, k as nat),
        decreases n - k,
    {
        let mut i: usize = 0;
        let ghost r0 = r@;
        while i < v.len()
            invariant
                i <= v@.len(),
                r@ == r0 + v@.take(i as int),
            decreases v@.len() - i,
        {
            r.push(v[i]);
            i = i + 1;
            proof { assert(r@ =~= r0 + v@.take(i as int)); }
        }
        proof { assert(v@.take(v@.len() as int) =~= v@); }
        k = k + 1;
    }
    r
}

/// How many notches of a wheel turn count: at most 30.
pub open spec fn notches(lines: i64) -> nat {
    let a: int = if lines < 0 { -lines } else { lines as int };
    (if a < 30 { a } else { 30 }) as nat
}

/// What a turn of the wheel by `lines` notches (up where positive) over cell `(gx, gy)`
/// does: reports to a program that asked for the mouse (Shift held back), the up or down
/// cursor key on the alternate screen, else a move of the view into the scrollback.
pub fn wheel(t: &mut Term, lines: i64, mods: u64, gx: usize, gy: usize) -> (r: Option<Vec<u8>>)
    requires
        old(t).wf(),
        gx < usize::MAX,
        gy < usize::MAX,
    ensures
        final(t).wf(),
        ({
            let t0 = old(t)@;
            let n = notches(lines);
            if lines == 0 {
                r is None && final(t)@ == t0
            } else if reports_spec(t0.modes, mods, t0.view) {
                &&& final(t)@ == t0
                &&& (r is None <==> !t0.modes.sgr_mouse)
                &&& (r matches Some(v) ==> v@ == repeat(mouse_bytes(if lines > 0 { WHEEL_UP } else { WHEEL_DOWN }, DOWN, mods, gx, gy), n))
            } else if t0.alt != 0 {
                &&& final(t)@ == t0
                &&& r matches Some(v) && v@ == repeat(seq![27u8, if t0.modes.ckm { 79u8 } else { 91u8 }, if lines > 0 { 65u8 } else { 66u8 }], n)
            } else {
                &&& r is None
                &&& final(t)@ == ({
                    let v0 = t0.view + lines;
                    let len = t0.sb.len() as int;
                    let v = if v0 < 0 { 0 } else if v0 > len { len } else { v0 };
                    if v != t0.view { TermV { view: v as usize, all_dirty: true, ..t0 } } else { t0 }
                })
            }
        }),
{
    proof { t.lemma_fields(); }
    if lines == 0 {
        return None;
    }
    let n: usize = if lines <= -30 || lines >= 30 { 30 } else if lines < 0 { (0 - lines) as usize } else { lines as usize };
    if reports_mouse(&t.modes, mods, t.view) {
        let btn = if lines > 0 { WHEEL_UP } else { WHEEL_DOWN };
        match mouse_report(btn, DOWN, mods, gx, gy, &t.modes) {
            Some(b) => Some(repeat_bytes(&b, n)),
            None => None,
        }
    } else if t.alt != 0 {
        let arrow = vec![27u8, if t.modes.ckm { 79u8 } else { 91u8 }, if lines > 0 { 65u8 } else { 66u8 }];
        Some(repeat_bytes(&arrow, n))
    } else {
        t.scroll_view(lines);
        None
    }
}


/// `ESC [ < b ; x+1 ; y+1 fin`.
fn sgr_report(b: i64, gx: usize, gy: usize, fin: u8) -> (out: Vec<u8>)
    requires
        gx < usize::MAX,
        gy < usize::MAX,
    ensures
        out@ == seq![27u8, 91, 60] + sdec(b as int) + seq![59u8] + dec((gx + 1) as nat) + seq![59u8]
            + dec((gy + 1) as nat) + seq![fin],
{
    let mut out: Vec<u8> = vec![27u8, 91, 60];
    push_sdec(&mut out, b);
    out.push(59);
    push_dec(&mut out, (gx + 1) as u64);
    out.push(59);
    push_dec(&mut out, (gy + 1) as u64);
    out.push(fin);
    proof {
        assert(out@ =~= seq![27u8, 91, 60] + sdec(b as int) + seq![59u8] + dec((gx + 1) as nat) + seq![59u8]
            + dec((gy + 1) as nat) + seq![fin]);
    }
    out
}

/// No character of `s` is a control character.
pub open spec fn no_control(s: Seq<char>) -> bool {
    forall|i: int| 0 <= i < s.len() ==> !is_control(#[trigger] s[i])
}

/// A byte of text: neither a C0 control nor DEL.
pub open spec fn text_byte(b: u8) -> bool {
    b >= 0x20 && b != 0x7f
}

proof fn lemma_concat_no_control(a: Seq<char>, b: Seq<char>)
    requires
        no_control(a),
        no_control(b),
    ensures
        no_control(a + b),
{
    assert forall|i: int| 0 <= i < (a + b).len() implies !is_control(#[trigger] (a + b)[i]) by {
        if i < a.len() {
            assert((a + b)[i] == a[i]);
        } else {
            assert((a + b)[i] == b[i - a.len()]);
        }
    }
}

proof fn lemma_visible_no_control(s: Seq<char>)
    ensures
        no_control(visible(s)),
    decreases s.len(),
{
    reveal(Seq::filter);
    if s.len() > 0 {
        lemma_visible_no_control(s.drop_last());
    }
}

proof fn lemma_escape_no_control(s: Seq<char>)
    requires
        no_control(s),
    ensures
        no_control(escape_quotes(s)),
    decreases s.len(),
{
    if s.len() > 0 {
        lemma_escape_no_control(s.drop_last());
        let tail = if s.last() == '\'' { seq!['\'', '\\', '\'', '\''] } else { seq![s.last()] };
        assert(!is_control(s[s.len() - 1]));
        assert(no_control(tail));
        lemma_concat_no_control(escape_quotes(s.drop_last()), tail);
    }
}

proof fn lemma_quote_no_control(s: Seq<char>)
    requires
        no_control(s),
    ensures
        no_control(quote(s)),
{
    if !all_safe(s) {
        lemma_escape_no_control(s);
        assert(no_control(seq!['\'']));
        lemma_concat_no_control(seq!['\''], escape_quotes(s));
        lemma_concat_no_control(seq!['\''] + escape_quotes(s), seq!['\'']);
    }
}

proof fn lemma_quoted_paths_no_control(ps: Seq<Seq<char>>)
    ensures
        no_control(quoted_paths(ps)),
    decreases ps.len(),
{
    if ps.len() == 1 {
        lemma_visible_no_control(ps[0]);
        lemma_quote_no_control(visible(ps[0]));
    } else if ps.len() > 1 {
        lemma_quoted_paths_no_control(ps.drop_last());
        lemma_visible_no_control(ps.last());
        lemma_quote_no_control(visible(ps.last()));
        assert(no_control(seq![' ']));
        lemma_concat_no_control(quoted_paths(ps.drop_last()), seq![' ']);
        lemma_concat_no_control(quoted_paths(ps.drop_last()) + seq![' '], quote(visible(ps.last())));
    }
}

proof fn lemma_scalar_text(c: char)
    requires
        !is_control(c),
    ensures
        forall|k: int| 0 <= k < encode_scalar(c as u32).len() ==> text_byte(#[trigger] encode_scalar(c as u32)[k]),
{
    let v = c as u32;
    if has_width_1_encoding(v) {
        assert((v & 0x7f) as u8 == v) by (bit_vector) requires v <= 0x7f;
    } else {
        assert((0xC0u8 | ((v >> 6u32) & 0x1F) as u8) >= 0x80) by (bit_vector);
        assert((0xE0u8 | ((v >> 12u32) & 0x0F) as u8) >= 0x80) by (bit_vector);
        assert((0xF0u8 | ((v >> 18u32) & 0x7) as u8) >= 0x80) by (bit_vector);
        assert((0x80u8 | (v & 0x3F) as u8) >= 0x80) by (bit_vector);
        assert((0x80u8 | ((v >> 6u32) & 0x3F) as u8) >= 0x80) by (bit_vector);
        assert((0x80u8 | ((v >> 12u32) & 0x3F) as u8) >= 0x80) by (bit_vector);
    }
}

proof fn lemma_encode_text(s: Seq<char>)
    requires
        no_control(s),
    ensures
        forall|k: int| 0 <= k < encode_utf8(s).len() ==> text_byte(#[trigger] encode_utf8(s)[k]),
    decreases s.len(),
{
    if s.len() > 0 {
        let t = s.drop_first();
        assert(no_control(t)) by {
            assert forall|i: int| 0 <= i < t.len() implies !is_control(#[trigger] t[i]) by {
                assert(t[i] == s[i + 1]);
            }
        }
        lemma_encode_text(t);
        assert(!is_control(s[0]));
        lemma_scalar_text(s[0]);
        let a = encode_scalar(s[0] as u32);
        let b = encode_utf8(t);
        assert(encode_utf8(s) == a + b);
        assert forall|k: int| 0 <= k < (a + b).len() implies text_byte(#[trigger] (a + b)[k]) by {
            if k < a.len() {
                assert((a + b)[k] == a[k]);
            } else {
                assert((a + b)[k] == b[k - a.len()]);
            }
        }
    }
}

/// The paths typed for dropped files hold no control byte at all, so no line feed or
/// carriage return can submit a command line: between the bracket marks there is only
/// text.
pub proof fn dropped_paths_are_text(ps: Seq<Seq<char>>)
    ensures
        forall|k: int| 0 <= k < encode_utf8(quoted_paths(ps)).len() ==> text_byte(#[trigger] encode_utf8(quoted_paths(ps))[k]),
{
    lemma_quoted_paths_no_control(ps);
    lemma_encode_text(quoted_paths(ps));
}

/// `c` in front of the word read so far, if any.
pub open spec fn prepend(pre: Seq<char>, o: Option<Seq<char>>) -> Option<Seq<char>> {
    match o {
        Some(t) => Some(pre + t),
        None => None,
    }
}

/// The one word a POSIX shell reads from `w` (inside single quotes when `inq`): single
/// quotes group anything, a backslash outside them takes the next character as it is;
/// none where the shell would find an unquoted character that it treats specially, or an
/// unterminated quote.
pub open spec fn sh_word(w: Seq<char>, inq: bool) -> Option<Seq<char>>
    decreases w.len(),
{
    if w.len() == 0 {
        if inq { None } else { Some(Seq::empty()) }
    } else if inq {
        if w[0] == '\'' { sh_word(w.drop_first(), false) } else { prepend(seq![w[0]], sh_word(w.drop_first(), true)) }
    } else if w[0] == '\'' {
        sh_word(w.drop_first(), true)
    } else if w[0] == '\\' && w.len() > 1 {
        prepend(seq![w[1]], sh_word(w.skip(2), false))
    } else if safe_char(w[0]) {
        prepend(seq![w[0]], sh_word(w.drop_first(), false))
    } else {
        None
    }
}

proof fn lemma_sh_safe(s: Seq<char>)
    requires
        forall|i: int| 0 <= i < s.len() ==> safe_char(#[trigger] s[i]),
    ensures
        sh_word(s, false) == Some(s),
    decreases s.len(),
{
    if s.len() > 0 {
        let t = s.drop_first();
        assert forall|i: int| 0 <= i < t.len() implies safe_char(#[trigger] t[i]) by {
            assert(t[i] == s[i + 1]);
        }
        lemma_sh_safe(t);
        assert(safe_char(s[0]));
        assert(seq![s[0]] + t =~= s);
    }
}

proof fn lemma_sh_escaped(s: Seq<char>, rest: Seq<char>)
    ensures
        sh_word(escape_quotes(s) + rest, true) == prepend(s, sh_word(rest, true)),
    decreases s.len(),
{
    if s.len() == 0 {
        assert(escape_quotes(s) + rest =~= rest);
        match sh_word(rest, true) {
            Some(t) => { assert(s + t =~= t); },
            None => {},
        }
    } else {
        let s0 = s.drop_last();
        let c = s.last();
        let piece = if c == '\'' { seq!['\'', '\\', '\'', '\''] } else { seq![c] };
        assert(escape_quotes(s) + rest =~= escape_quotes(s0) + (piece + rest));
        lemma_sh_escaped(s0, piece + rest);
        let w = piece + rest;
        if c == '\'' {
            assert(w.drop_first() =~= seq!['\\', '\'', '\''] + rest);
            let w1 = w.drop_first();
            assert(w1.skip(2) =~= seq!['\''] + rest);
            let w2 = w1.skip(2);
            assert(w2.drop_first() =~= rest);
            assert(sh_word(w2, false) == sh_word(rest, true));
            assert(sh_word(w1, false) == prepend(seq!['\''], sh_word(rest, true)));
            assert(sh_word(w, true) == prepend(seq![c], sh_word(rest, true)));
        } else {
            assert(w.drop_first() =~= rest);
            assert(sh_word(w, true) == prepend(seq![c], sh_word(rest, true)));
        }
        match sh_word(rest, true) {
            Some(t) => { assert(s0 + (seq![c] + t) =~= s + t); },
            None => {},
        }
    }
}

/// A path quoted for the shell is read back by the shell as one word, the path itself:
/// no character of it is taken as an operator, a separator or an expansion.
pub proof fn quote_reads_back(s: Seq<char>)
    ensures
        sh_word(quote(s), false) == Some(s),
{
    if all_safe(s) {
        lemma_sh_safe(s);
    } else {
        let q = seq!['\''] + escape_quotes(s) + seq!['\''];
        assert(q.drop_first() =~= escape_quotes(s) + seq!['\'']);
        lemma_sh_escaped(s, seq!['\'']);
        let end = seq!['\''];
        assert(end.drop_first() =~= Seq::<char>::empty());
        assert(sh_word(end.drop_first(), false) == Some(Seq::<char>::empty()));
        assert(sh_word(end, true) == Some(Seq::<char>::empty()));
        assert(s + Seq::<char>::empty() =~= s);
    }
}

/// How a byte of a paste made only of text and line feeds comes out: a line feed as a
/// carriage return, anything else as it is.
spec fn lf_to_cr(b: u8) -> u8 {
    if b == 10 { 13 } else { b }
}

proof fn lemma_plain_paste_from(raw: Seq<u8>, i: int, acc: Seq<u8>)
    requires
        0 <= i <= raw.len(),
        forall|k: int| 0 <= k < raw.len() ==> (0x20 <= #[trigger] raw[k] < 0x7f || raw[k] == 10),
    ensures
        paste_from(raw, i, acc) == acc + Seq::new((raw.len() - i) as nat, |k: int| lf_to_cr(raw[i + k])),
    decreases raw.len() - i,
{
    if i < raw.len() {
        let c = raw[i];
        assert(0x20 <= c < 0x7f || c == 10);
        let e = acc.push(lf_to_cr(c));
        assert(emit(acc, lf_to_cr(c)) == e);
        lemma_plain_paste_from(raw, i + 1, e);
        assert(e + Seq::new((raw.len() - i - 1) as nat, |k: int| lf_to_cr(raw[i + 1 + k]))
            =~= acc + Seq::new((raw.len() - i) as nat, |k: int| lf_to_cr(raw[i + k])));
    } else {
        assert(acc + Seq::new(0nat, |k: int| lf_to_cr(raw[i + k])) =~= acc);
    }
}

/// A paste made of printable ASCII and line feeds comes through byte for byte, each line
/// feed turned into one carriage return: as long as the paste, blank lines kept.
pub proof fn plain_paste_is_kept(raw: Seq<u8>)
    requires
        forall|k: int| 0 <= k < raw.len() ==> (0x20 <= #[trigger] raw[k] < 0x7f || raw[k] == 10),
    ensures
        paste_body(raw).len() == raw.len(),
        forall|k: int| 0 <= k < raw.len() ==> #[trigger] paste_body(raw)[k] == (if raw[k] == 10 { 13u8 } else { raw[k] }),
{
    lemma_plain_paste_from(raw, 0, Seq::empty());
    assert(Seq::<u8>::empty() + Seq::new(raw.len(), |k: int| lf_to_cr(raw[0 + k])) =~= Seq::new(raw.len(), |k: int| lf_to_cr(raw[k])));
}

proof fn lemma_ascii_acc(raw: Seq<u8>, i: int, acc: Seq<u8>)
    requires
        0 <= i,
        forall|k: int| 0 <= k < raw.len() ==> #[trigger] raw[k] < 0x80,
    ensures
        paste_from(raw, i, acc) == acc + paste_from(raw, i, Seq::empty()),
    decreases raw.len() - i,
{
    if i < raw.len() {
        let c = raw[i];
        let e = Seq::<u8>::empty();
        if c == 13 && i + 1 < raw.len() && raw[i + 1] == 10 {
            lemma_ascii_acc(raw, i + 1, acc);
        } else if c == 10 {
            lemma_ascii_acc(raw, i + 1, acc.push(13));
            lemma_ascii_acc(raw, i + 1, e.push(13));
            assert(acc.push(13) =~= acc + e.push(13));
            assert(acc + e.push(13) + paste_from(raw, i + 1, e) =~= acc + (e.push(13) + paste_from(raw, i + 1, e)));
        } else if c == 0x7f || (c <= 0x1f && c != 9 && c != 13) {
            lemma_ascii_acc(raw, i + 1, acc);
        } else {
            lemma_ascii_acc(raw, i + 1, acc.push(c));
            lemma_ascii_acc(raw, i + 1, e.push(c));
            assert(acc.push(c) =~= acc + e.push(c));
            assert(acc + e.push(c) + paste_from(raw, i + 1, e) =~= acc + (e.push(c) + paste_from(raw, i + 1, e)));
        }
    } else {
        assert(acc + Seq::<u8>::empty() =~= acc);
    }
}

proof fn lemma_paste_shift(a: Seq<u8>, b: Seq<u8>, j: int, acc: Seq<u8>)
    requires
        0 <= j,
    ensures
        paste_from(a + b, a.len() + j, acc) == paste_from(b, j, acc),
    decreases b.len() - j,
{
    let r = a + b;
    if j < b.len() {
        assert(r[a.len() + j] == b[j]);
        if j + 1 < b.len() {
            assert(r[a.len() + j + 1] == b[j + 1]);
        }
        lemma_paste_shift(a, b, j + 1, acc);
        if j + 2 <= b.len() {
            lemma_paste_shift(a, b, j + 2, acc);
        }
        let c = b[j];
        lemma_paste_shift(a, b, j + 1, emit(acc, 13));
        lemma_paste_shift(a, b, j + 1, emit(acc, c));
    }
}

proof fn lemma_paste_prefix(a: Seq<u8>, b: Seq<u8>, i: int, acc: Seq<u8>)
    requires
        0 <= i <= a.len(),
        a.len() == 0 || a.last() != 13,
        forall|k: int| 0 <= k < a.len() ==> #[trigger] a[k] < 0x80,
    ensures
        paste_from(a + b, i, acc) == paste_from(a + b, a.len() as int, paste_from(a, i, acc)),
    decreases a.len() - i,
{
    let r = a + b;
    if i < a.len() {
        let c = a[i];
        assert(r[i] == c);
        if i + 1 < a.len() {
            assert(r[i + 1] == a[i + 1]);
        }
        if c == 13 {
            assert(i + 1 < a.len());
        }
        lemma_paste_prefix(a, b, i + 1, acc);
        lemma_paste_prefix(a, b, i + 1, emit(acc, 13));
        lemma_paste_prefix(a, b, i + 1, emit(acc, c));
    }
}

/// A paste of ASCII cleans piece by piece: cut anywhere but right after a carriage
/// return, the cleaned paste is the two pieces cleaned, one after the other.
pub proof fn ascii_paste_splits(a: Seq<u8>, b: Seq<u8>)
    requires
        forall|k: int| 0 <= k < a.len() ==> #[trigger] a[k] < 0x80,
        forall|k: int| 0 <= k < b.len() ==> #[trigger] b[k] < 0x80,
        a.len() == 0 || a.last() != 13,
    ensures
        paste_body(a + b) == paste_body(a) + paste_body(b),
{
    lemma_paste_prefix(a, b, 0, Seq::empty());
    lemma_paste_shift(a, b, 0, paste_body(a));
    lemma_ascii_acc(b, 0, paste_body(a));
}

/// One ASCII byte of a paste: a line feed becomes a carriage return; DEL and the C0
/// controls but TAB and CR are dropped; anything else stays. A carriage return followed
/// by a line feed becomes one carriage return.
pub proof fn ascii_paste_bytes(c: u8)
    requires
        c < 0x80,
    ensures
        paste_body(seq![c]) == (if c == 10 {
            seq![13u8]
        } else if c == 0x7f || (c <= 0x1f && c != 9 && c != 13) {
            Seq::<u8>::empty()
        } else {
            seq![c]
        }),
        paste_body(seq![13u8, 10]) == seq![13u8],
{
    let e = Seq::<u8>::empty();
    let one = seq![c];
    assert(one.len() == 1 && one[0] == c);
    if c == 10 {
        assert(paste_from(one, 0, e) == paste_from(one, 1, emit(e, 13)));
    } else if c == 0x7f || (c <= 0x1f && c != 9 && c != 13) {
        assert(paste_from(one, 0, e) == paste_from(one, 1, e));
    } else {
        assert(paste_from(one, 0, e) == paste_from(one, 1, emit(e, c)));
    }
    assert(paste_from(seq![c], 1, e.push(13)) == e.push(13));
    assert(paste_from(seq![c], 1, e.push(c)) == e.push(c));
    assert(paste_from(seq![c], 1, e) == e);
    assert(e.push(13) =~= seq![13u8]);
    assert(e.push(c) =~= seq![c]);
    let w = seq![13u8, 10];
    assert(w.len() == 2 && w[0] == 13u8 && w[1] == 10u8);
    assert(paste_from(w, 0, e) == paste_from(w, 1, e));
    assert(paste_from(w, 1, e) == paste_from(w, 2, emit(e, 13)));
    assert(paste_from(w, 2, e.push(13)) == e.push(13));
}

} // verus!

//! Keys to the bytes a terminal sends for them, and the window commands.
use vstd::prelude::*;
use vstd::utf8::{encode_scalar, is_scalar};

use crate::text::{dec, push_dec};
use crate::vt::{Modes, encode_utf8};
use super::{mod_code, mod_code_spec, SHIFT, CTRL, ALT, CMD};

verus! {

/// What a key press asks for.
pub enum Act {
    /// Bytes for the program.
    Write(Vec<u8>),
    Copy,
    Paste,
    /// A font size step: `1` larger, `-1` smaller.
    Font(i8),
    /// A brightness step: `1` brighter, `-1` dimmer.
    Gamma(i8),
    /// The next phosphor colour.
    Phosphor,
    NewWindow,
    Quit,
    /// Nothing: the key is swallowed.
    Eat,
    /// Nothing here: the key goes on as text input.
    Pass,
}

/// What a key press asks for, with bytes as a sequence.
pub enum ActV {
    Write(Seq<u8>),
    Copy,
    Paste,
    Font(i8),
    Gamma(i8),
    Phosphor,
    NewWindow,
    Quit,
    Eat,
    Pass,
}

impl View for Act {
    type V = ActV;

    open spec fn view(&self) -> ActV {
        match self {
            Act::Write(v) => ActV::Write(v@),
            Act::Copy => ActV::Copy,
            Act::Paste => ActV::Paste,
            Act::Font(d) => ActV::Font(*d),
            Act::Gamma(d) => ActV::Gamma(*d),
            Act::Phosphor => ActV::Phosphor,
            Act::NewWindow => ActV::NewWindow,
            Act::Quit => ActV::Quit,
            Act::Eat => ActV::Eat,
            Act::Pass => ActV::Pass,
        }
    }
}

/// A cursor or keypad key ending in letter `l`: `ESC [ l` (or `ESC O l` in application
/// mode), or `ESC [ 1 ; m l` with modifiers.
pub open spec fn letter_seq(l: u8, mods: u64, app: bool) -> Seq<u8> {
    let mc = mod_code_spec(mods);
    if mc == 1 {
        seq![27u8, if app { 79u8 } else { 91u8 }, l]
    } else {
        seq![27u8, 91, 49, 59] + dec(mc as nat) + seq![l]
    }
}

/// A key sent as `ESC [ code ~`, or `ESC [ code ; m ~` with modifiers.
pub open spec fn tilde_seq(code: nat, mods: u64) -> Seq<u8> {
    let mc = mod_code_spec(mods);
    if mc == 1 {
        seq![27u8, 91] + dec(code) + seq![126u8]
    } else {
        seq![27u8, 91] + dec(code) + seq![59u8] + dec(mc as nat) + seq![126u8]
    }
}

/// The control code that Ctrl with the key `c` sends, if any.
pub open spec fn ctrl_code(c: u8) -> Option<u8> {
    if c == 32 || c == 64 || c == 50 {
        Some(0u8)
    } else if (97 <= c <= 122) || (65 <= c <= 90) || (91 <= c <= 95) {
        Some(c & 0x1f)
    } else if c == 47 {
        Some(0x1fu8)
    } else if c == 63 {
        Some(0x7fu8)
    } else {
        None
    }
}

/// The window command of Cmd with the key `c`.
pub open spec fn cmd_act(c: u8) -> ActV {
    if c == 113 {
        ActV::Quit
    } else if c == 110 {
        ActV::NewWindow
    } else if c == 99 {
        ActV::Copy
    } else if c == 118 {
        ActV::Paste
    } else if c == 61 || c == 43 {
        ActV::Font(1i8)
    } else if c == 45 {
        ActV::Font(-1i8)
    } else if c == 93 {
        ActV::Gamma(1i8)
    } else if c == 91 {
        ActV::Gamma(-1i8)
    } else if c == 112 {
        ActV::Phosphor
    } else {
        ActV::Eat
    }
}

/// The letter of an arrow key (up, down, left, right).
pub open spec fn arrow_letter(k: int) -> u8 {
    if k == 0 { 65 } else if k == 1 { 66 } else if k == 2 { 68 } else { 67 }
}

/// The code of a function key F5..F12.
pub open spec fn fkey_code(k: int) -> nat {
    if k == 0 { 15 } else if k == 1 { 17 } else if k == 2 { 18 } else if k == 3 { 19 }
    else if k == 4 { 20 } else if k == 5 { 21 } else if k == 6 { 23 } else { 24 }
}

/// What the key `ch` (a UTF-16 unit, or one of AppKit's function-key codes) with the
/// modifier flags `mods` asks for, under cursor-key mode `ckm`.
pub open spec fn key_spec(ch: u16, mods: u64, ckm: bool, erase: u8) -> ActV {
    let alt = mods & ALT != 0;
    let ctrl = mods & CTRL != 0;
    if mods & CMD != 0 {
        cmd_act(ch as u8)
    } else if 0xf700 <= ch <= 0xf703 {
        ActV::Write(letter_seq(arrow_letter(ch - 0xf700), mods, ckm))
    } else if ch == 0xf729 {
        ActV::Write(letter_seq(72, mods, ckm))
    } else if ch == 0xf72b {
        ActV::Write(letter_seq(70, mods, ckm))
    } else if 0xf704 <= ch <= 0xf707 {
        ActV::Write(letter_seq((80 + (ch - 0xf704)) as u8, mods, true))
    } else if 0xf708 <= ch <= 0xf70f {
        ActV::Write(tilde_seq(fkey_code(ch - 0xf708), mods))
    } else if ch == 0xf728 {
        ActV::Write(tilde_seq(3, mods))
    } else if ch == 0xf72c {
        ActV::Write(tilde_seq(5, mods))
    } else if ch == 0xf72d {
        ActV::Write(tilde_seq(6, mods))
    } else if 0xf710 <= ch <= 0xf8ff {
        ActV::Eat
    } else if ch == 13 {
        ActV::Write(if alt { seq![27u8, 13] } else { seq![13u8] })
    } else if ch == 9 {
        ActV::Write(if mods & SHIFT != 0 { seq![27u8, 91, 90] } else { seq![9u8] })
    } else if ch == 0x7f {
        ActV::Write(if alt { seq![27u8, erase] } else if ctrl { seq![8u8] } else { seq![erase] })
    } else if ch == 0x1b {
        ActV::Write(if alt { seq![27u8, 27] } else { seq![27u8] })
    } else if ctrl {
        match ctrl_code(ch as u8) {
            Some(b) => ActV::Write(if alt { seq![27u8, b] } else { seq![b] }),
            None => ActV::Eat,
        }
    } else if alt && ch >= 0x20 {
        ActV::Write(seq![27u8] + encode_scalar(if is_scalar(ch as u32) { ch as u32 } else { 0xfffd }))
    } else {
        ActV::Pass
    }
}

fn letter_key(l: u8, mods: u64, app: bool) -> (a: Act)
    ensures
        a@ == ActV::Write(letter_seq(l, mods, app)),
{
    let mc = mod_code(mods);
    if mc == 1 {
        let v = vec![27u8, if app { 79u8 } else { 91u8 }, l];
        proof { assert(v@ =~= letter_seq(l, mods, app)); }
        Act::Write(v)
    } else {
        let mut v = vec![27u8, 91, 49, 59];
        push_dec(&mut v, mc as u64);
        v.push(l);
        proof { assert(v@ =~= letter_seq(l, mods, app)); }
        Act::Write(v)
    }
}

fn tilde_key(code: u32, mods: u64) -> (a: Act)
    ensures
        a@ == ActV::Write(tilde_seq(code as nat, mods)),
{
    let mc = mod_code(mods);
    let mut v = vec![27u8, 91];
    push_dec(&mut v, code as u64);
    if mc != 1 {
        v.push(59);
        push_dec(&mut v, mc as u64);
    }
    v.push(126);
    proof { assert(v@ =~= tilde_seq(code as nat, mods)); }
    Act::Write(v)
}

fn cmd_key(c: u8) -> (a: Act)
    ensures
        a@ == cmd_act(c),
{
    if c == 113 {
        Act::Quit
    } else if c == 110 {
        Act::NewWindow
    } else if c == 99 {
        Act::Copy
    } else if c == 118 {
        Act::Paste
    } else if c == 61 || c == 43 {
        Act::Font(1)
    } else if c == 45 {
        Act::Font(-1)
    } else if c == 93 {
        Act::Gamma(1)
    } else if c == 91 {
        Act::Gamma(-1)
    } else if c == 112 {
        Act::Phosphor
    } else {
        Act::Eat
    }
}

fn ctrl_key(c: u8, alt: bool) -> (a: Act)
    ensures
        a@ == (match ctrl_code(c) {
            Some(b) => ActV::Write(if alt { seq![27u8, b] } else { seq![b] }),
            None => ActV::Eat,
        }),
{
    let b: u8 = if c == 32 || c == 64 || c == 50 {
        0
    } else if (97 <= c && c <= 122) || (65 <= c && c <= 90) || (91 <= c && c <= 95) {
        c & 0x1f
    } else if c == 47 {
        0x1f
    } else if c == 63 {
        0x7f
    } else {
        return Act::Eat;
    };
    let v = if alt { vec![27u8, b] } else { vec![b] };
    proof { assert(v@ =~= (if alt { seq![27u8, b] } else { seq![b] })); }
    Act::Write(v)
}

/// The keys of AppKit's function-key range and the editing keys.
fn special_key(ch: u16, mods: u64, ckm: bool) -> (a: Act)
    requires
        0xf700 <= ch <= 0xf8ff,
        mods & CMD == 0,
    ensures
        forall|erase: u8| a@ == #[trigger] key_spec(ch, mods, ckm, erase),
{
    if ch <= 0xf703 {
        let k = ch - 0xf700;
        let l: u8 = if k == 0 { 65 } else if k == 1 { 66 } else if k == 2 { 68 } else { 67 };
        letter_key(l, mods, ckm)
    } else if ch == 0xf729 {
        letter_key(72, mods, ckm)
    } else if ch == 0xf72b {
        letter_key(70, mods, ckm)
    } else if ch <= 0xf707 {
        letter_key((80 + (ch - 0xf704)) as u8, mods, true)
    } else if ch <= 0xf70f {
        let k = ch - 0xf708;
        let code: u32 = if k == 0 { 15 } else if k == 1 { 17 } else if k == 2 { 18 } else if k == 3 { 19 }
            else if k == 4 { 20 } else if k == 5 { 21 } else if k == 6 { 23 } else { 24 };
        tilde_key(code, mods)
    } else if ch == 0xf728 {
        tilde_key(3, mods)
    } else if ch == 0xf72c {
        tilde_key(5, mods)
    } else if ch == 0xf72d {
        tilde_key(6, mods)
    } else {
        Act::Eat
    }
}

/// What the key `ch` with the modifier flags `mods` asks for: a window command with
/// Cmd, else the bytes for the program (cursor keys by the cursor-key mode of `m`, the
/// tty's erase character `erase` for backspace), or nothing.
pub fn key(ch: u16, mods: u64, m: &Modes, erase: u8) -> (a: Act)
    ensures
        a@ == key_spec(ch, mods, m.ckm, erase),
{
    let alt = mods & ALT != 0;
    let ctrl = mods & CTRL != 0;
    if mods & CMD != 0 {
        return cmd_key(ch as u8);
    }
    if 0xf700 <= ch && ch <= 0xf8ff {
        return special_key(ch, mods, m.ckm);
    }
    if ch == 13 {
        let v = if alt { vec![27u8, 13] } else { vec![13u8] };
        proof { assert(v@ =~= (if alt { seq![27u8, 13] } else { seq![13u8] })); }
        Act::Write(v)
    } else if ch == 9 {
        let v = if mods & SHIFT != 0 { vec![27u8, 91, 90] } else { vec![9u8] };
        proof { assert(v@ =~= (if mods & SHIFT != 0 { seq![27u8, 91, 90] } else { seq![9u8] })); }
        Act::Write(v)
    } else if ch == 0x7f {
        let v = if alt { vec![27u8, erase] } else if ctrl { vec![8u8] } else { vec![erase] };
        proof { assert(v@ =~= (if alt { seq![27u8, erase] } else if ctrl { seq![8u8] } else { seq![erase] })); }
        Act::Write(v)
    } else if ch == 0x1b {
        let v = if alt { vec![27u8, 27] } else { vec![27u8] };
        proof { assert(v@ =~= (if alt { seq![27u8, 27] } else { seq![27u8] })); }
        Act::Write(v)
    } else if ctrl {
        ctrl_key(ch as u8, alt)
    } else if alt && ch >= 0x20 {
        let mut v = vec![27u8];
        proof { assert(v@ =~= seq![27u8]); }
        encode_utf8(ch as u32, &mut v);
        Act::Write(v)
    } else {
        Act::Pass
    }
}

} // verus!

//! The byte-level parser: escape sequences, OSC strings, UTF-8 and the fast path for
//! runs of printable ASCII.
use vstd::prelude::*;

use super::model::{TermV, Decoded, b64_digit, b64_decode, clip_data, budget, is_control, utf8_len, visible, cap_utf8, lemma_cap_utf8, title_ok, find_byte, all_digits, digits_value, printable, printable_run, lemma_printable_run, LineV};
use super::split::{clean_split, same_reader, lemma_put_run_wf, lemma_put_run_split, lemma_run_concat};
use super::laws::{lemma_run_within, lemma_run_prefix};
use super::lemmas::{grows_by, same_frame, lemma_set_line_twice, lemma_set_line_same, lemma_set_cell_scr, lemma_scr_ok};
use super::cursor::room;
use crate::vt::{Term, St, Cell, OSC_MAX, lossy_chars, string_from_chars};

verus! {

/// Whether `c` is a control character (general category Cc).
fn control_char(c: char) -> (r: bool)
    ensures
        r == is_control(c),
{
    let u = c as u32;
    u < 0x20 || (0x7f <= u && u < 0xa0)
}

/// Number of bytes of the UTF-8 encoding of `c`.
fn char_len(c: char) -> (r: usize)
    ensures
        r == utf8_len(c),
{
    let u = c as u32;
    if u < 0x80 { 1 } else if u < 0x800 { 2 } else if u < 0x10000 { 3 } else { 4 }
}

/// The value of a base64 digit, or -1 for a byte that is none.
fn b64_digit_of(c: u8) -> (v: i32)
    ensures
        v == b64_digit(c),
{
    if 65 <= c && c <= 90 {
        c as i32 - 65
    } else if 97 <= c && c <= 122 {
        c as i32 - 71
    } else if 48 <= c && c <= 57 {
        c as i32 + 4
    } else if c == 43 {
        62
    } else if c == 47 {
        63
    } else {
        -1
    }
}

/// The bytes that the base64 text `s[from..]` encodes, if it is base64.
fn b64_decode_from(s: &[u8], from: usize) -> (r: Option<Vec<u8>>)
    requires
        from <= s@.len(),
    ensures
        match r {
            Some(v) => b64_decode(s@.skip(from as int)) == Some(v@),
            None => b64_decode(s@.skip(from as int)) is None,
        },
{
    let mut out: Vec<u8> = Vec::new();
    let mut i = from;
    loop
        invariant
            from <= i <= s@.len(),
            b64_decode(s@.skip(from as int)) == match b64_decode(s@.skip(i as int)) {
                Some(r) => Some(out@ + r),
                None => None,
            },
        decreases s@.len() - i,
    {
        let ghost t = s@.skip(i as int);
        let n = s.len() - i;
        if n == 0 {
            proof { assert(out@ + Seq::<u8>::empty() =~= out@); }
            return Some(out);
        }
        if n < 4 {
            return None;
        }
        proof {
            assert(t[0] == s@[i as int]);
            assert(t[1] == s@[i + 1]);
            assert(t[2] == s@[i + 2]);
            assert(t[3] == s@[i + 3]);
        }
        let a = b64_digit_of(s[i]);
        let b = b64_digit_of(s[i + 1]);
        if a < 0 || b < 0 {
            return None;
        }
        let x0 = (a * 4 + b / 16) as u8;
        if n == 4 && s[i + 2] == 61 && s[i + 3] == 61 {
            out.push(x0);
            return Some(out);
        }
        let c = b64_digit_of(s[i + 2]);
        if c < 0 {
            return None;
        }
        let x1 = ((b % 16) * 16 + c / 4) as u8;
        if n == 4 && s[i + 3] == 61 {
            out.push(x0);
            out.push(x1);
            return Some(out);
        }
        let d = b64_digit_of(s[i + 3]);
        if d < 0 {
            return None;
        }
        let x2 = ((c % 4) * 64 + d) as u8;
        let ghost o0 = out@;
        out.push(x0);
        out.push(x1);
        out.push(x2);
        proof {
            assert(t.skip(4) =~= s@.skip(i + 4));
            match b64_decode(s@.skip(i + 4)) {
                Some(r) => { assert(o0 + (seq![x0, x1, x2] + r) =~= out@ + r); },
                None => {},
            }
        }
        i = i + 4;
    }
}

/// A window title made of decoded characters: the control characters dropped and the
/// rest cut to the longest prefix that fits in 255 bytes of UTF-8.
pub fn clean_title(chars: &[char]) -> (r: Vec<char>)
    ensures
        r@ == cap_utf8(visible(chars@), 255),
        title_ok(Some(r@)),
{
    let mut vis: Vec<char> = Vec::new();
    let mut i: usize = 0;
    while i < chars.len()
        invariant
            i <= chars@.len(),
            vis@ == visible(chars@.take(i as int)),
            forall|k: int| 0 <= k < vis@.len() ==> !is_control(#[trigger] vis@[k]),
        decreases chars@.len() - i,
    {
        let c = chars[i];
        proof {
            reveal(Seq::filter);
            assert(chars@.take(i + 1).drop_last() =~= chars@.take(i as int));
            assert(chars@.take(i + 1).last() == c);
        }
        if !control_char(c) {
            vis.push(c);
        }
        i = i + 1;
    }
    proof {
        assert(chars@.take(chars@.len() as int) =~= chars@);
        assert(vis@ == visible(chars@));
    }
    let ghost s = vis@;
    let mut out: Vec<char> = Vec::new();
    let mut used: usize = 0;
    let mut j: usize = 0;
    let mut done = false;
    proof {
        assert(s.skip(0) =~= s);
        assert(out@ + cap_utf8(s.skip(0), 255) =~= cap_utf8(s, 255));
    }
    while j < vis.len() && !done
        invariant
            j <= s.len(),
            s == vis@,
            forall|k: int| 0 <= k < s.len() ==> !is_control(#[trigger] s[k]),
            used <= 255,
            !done ==> cap_utf8(s, 255) == out@ + cap_utf8(s.skip(j as int), 255 - used),
            done ==> cap_utf8(s, 255) == out@,
        decreases s.len() - j + (if done { 0int } else { 1int }),
    {
        let c = vis[j];
        let l = char_len(c);
        proof { assert(s.skip(j as int)[0] == c); }
        if l > 255 - used {
            done = true;
            proof { assert(out@ + Seq::<char>::empty() =~= out@); }
        } else {
            proof {
                assert(s.skip(j as int).drop_first() =~= s.skip(j + 1));
                assert(out@ + cap_utf8(s.skip(j as int), 255 - used)
                    =~= out@.push(c) + cap_utf8(s.skip(j + 1), 255 - used - l));
            }
            out.push(c);
            used = used + l;
            j = j + 1;
        }
    }
    proof {
        if !done {
            assert(s.skip(j as int) =~= Seq::<char>::empty());
            assert(out@ + Seq::<char>::empty() =~= out@);
        }
        lemma_cap_utf8(s, 255);
        assert forall|k: int| 0 <= k < out@.len() implies !is_control(#[trigger] out@[k]) by {
            assert(out@[k] == s[k]);
        }
    }
    out
}

proof fn lemma_budget_keep(l: int, l2: int, m: int, k: int, b: int, top: int)
    requires
        1 <= k <= m,
        b >= 2,
        l + m * b <= top,
        l2 <= l + k * b,
    ensures
        l2 + (m - k) * b <= top,
{
    assert((m - k) * b + k * b == m * b) by (nonlinear_arith);
}

/// A run of printable bytes `buf[i..j]` taken from state `s0` to `s1`: feeding the rest
/// of `buf` and then any `c` from `s1` goes on as feeding all of `buf` and `c` would.
proof fn lemma_run_pieces(t0: TermV, buf: Seq<u8>, s0: TermV, s1: TermV, i: int, j: int, bb: int)
    requires
        s0.wf(),
        0 <= i < j <= buf.len(),
        forall|q: int| i <= q < j ==> printable(#[trigger] buf[q]),
        j == buf.len() || !printable(buf[j]),
        s0.fast(buf[i]),
        s1 == s0.put_run(buf.subrange(i, j)),
        same_reader(s0, s1),
        bb >= s0.rows + 2,
        s0.lines_total() + (buf.len() - i) * bb <= t0.lines_total() + buf.len() * bb,
        forall|c: Seq<u8>|
            t0.lines_total() + (buf.len() + c.len()) * bb <= u64::MAX
            ==> #[trigger] t0.feed(buf + c) == s0.feed(buf.skip(i) + c),
    ensures
        forall|c: Seq<u8>|
            (j < buf.len() || c.len() == 0 || !s1.fast(c[0]) || clean_split(s1))
            && t0.lines_total() + (buf.len() + c.len()) * bb <= u64::MAX
            ==> #[trigger] t0.feed(buf + c) == s1.feed(buf.skip(j) + c),
{
    reveal(TermV::feed);
    let k = j - i;
    let rest = buf.skip(i);
    let run = buf.subrange(i, j);
    assert(rest.take(k) =~= run);
    assert forall|q: int| 0 <= q < k implies printable(#[trigger] run[q]) by {
        assert(run[q] == buf[i + q]);
    }
    assert forall|c: Seq<u8>|
        (j < buf.len() || c.len() == 0 || !s1.fast(c[0]) || clean_split(s1))
        && t0.lines_total() + (buf.len() + c.len()) * bb <= u64::MAX
        implies #[trigger] t0.feed(buf + c) == s1.feed(buf.skip(j) + c) by {
        let rc = rest + c;
        assert(t0.feed(buf + c) == s0.feed(rc));
        assert(rc[0] == buf[i]);
        if j < buf.len() {
            assert forall|q: int| 0 <= q < k implies printable(#[trigger] rc[q]) by {
                assert(rc[q] == run[q]);
            }
            assert(rc[k] == buf[j]);
            lemma_printable_run(rc, k);
            assert(rc.take(k) =~= run);
            assert(rc.skip(k) =~= buf.skip(j) + c);
        } else {
            assert(rest =~= run);
            assert(buf.skip(j) + c =~= c);
            lemma_run_concat(run, c);
            let kb = printable_run(c) as int;
            lemma_run_within(c);
            if kb == 0 {
                assert(rc.take(k) =~= run);
                assert(rc.skip(k) =~= c);
            } else {
                lemma_run_prefix(c, 0);
                assert(s1.fast(c[0]));
                assert(clean_split(s1));
                assert(rc.take(k + kb) =~= run + c.take(kb));
                assert(rc.skip(k + kb) =~= c.skip(kb));
                assert((k + c.len()) * bb == k * bb + c.len() * bb) by (nonlinear_arith);
                assert((buf.len() + c.len()) * bb == buf.len() * bb + c.len() * bb) by (nonlinear_arith);
                lemma_run_budget(s0.lines_total(), s0.rows as int, k + kb, k + c.len(), bb);
                lemma_put_run_split(s0, run, c.take(kb));
                assert(s1.feed(c) == s1.put_run(c.take(kb)).feed(c.skip(kb)));
            }
        }
    }
}

proof fn lemma_step_budget(l: int, m: int, b: int)
    requires
        m >= 1,
        b >= 0,
        l + m * b <= u64::MAX,
    ensures
        l + b <= u64::MAX,
{
    assert(m * b >= b) by (nonlinear_arith) requires m >= 1, b >= 0;
}

proof fn lemma_step_budget_after(l: int, l2: int, m: int, b: int)
    requires
        m >= 1,
        b >= 0,
        l + m * b <= u64::MAX,
        l2 <= l + b,
    ensures
        l2 + (m - 1) * b <= u64::MAX,
{
    assert((m - 1) * b + b == m * b) by (nonlinear_arith);
}

proof fn lemma_run_budget(l: int, rows: int, k: int, m: int, b: int)
    requires
        1 <= k <= m,
        rows >= 0,
        b >= rows + 2,
        l + m * b <= u64::MAX,
    ensures
        l + rows + 2 * k <= u64::MAX,
{
    assert(m * b >= k * b) by (nonlinear_arith) requires 1 <= k <= m, b >= 0;
    assert(k * b >= k * (rows + 2)) by (nonlinear_arith) requires k >= 1, b >= rows + 2;
    assert(k * (rows + 2) >= rows + 2 * k) by (nonlinear_arith) requires k >= 1, rows >= 0;
}

proof fn lemma_run_budget_after(l: int, l2: int, k: int, m: int, b: int)
    requires
        1 <= k <= m,
        b >= 2,
        l + m * b <= u64::MAX,
        l2 <= l + 2 * k,
    ensures
        l2 + (m - k) * b <= u64::MAX,
{
    assert((m - k) * b + k * b == m * b) by (nonlinear_arith);
    assert(k * b >= 2 * k) by (nonlinear_arith) requires k >= 1, b >= 2;
}

/// The bytes of `v` after `v[k]`.
fn tail_from(v: &Vec<u8>, k: usize) -> (r: Vec<u8>)
    requires
        k < v@.len(),
    ensures
        r@ == v@.skip(k + 1),
{
    let n = v.len();
    let mut r: Vec<u8> = Vec::new();
    let mut j: usize = k + 1;
    while j < n
        invariant
            k + 1 <= j <= n,
            n == v@.len(),
            r@ == v@.subrange(k + 1, j as int),
        decreases n - j,
    {
        r.push(v[j]);
        j = j + 1;
        proof { assert(r@ =~= v@.subrange(k + 1, j as int)); }
    }
    proof { assert(r@ =~= v@.skip(k + 1)); }
    r
}

impl Term {
    /// Puts the bytes of the OSC 52 payload after `osc[k]` on the clipboard, where they
    /// are base64 and no query.
    fn osc_clip(&mut self, osc: &Vec<u8>, k: usize)
        requires
            k < osc@.len(),
        ensures
            final(self)@ == (match clip_data(osc@.skip(k + 1)) {
                Some(v) => TermV { clip: Some(v), ..old(self)@ },
                None => old(self)@,
            }),
    {
        let ghost o = osc@;
        let payload = tail_from(osc, k);
        let ghost p = payload@;
        let mut m: usize = 0;
        while m < payload.len() && payload[m] != 59
            invariant
                m <= p.len(),
                p == payload@,
                find_byte(p, 59, m as int) == find_byte(p, 59, 0),
            decreases p.len() - m,
        {
            m = m + 1;
        }
        if m < payload.len() {
            proof { assert(find_byte(p, 59, 0) == Some(m as int)); }
            let query = payload.len() - m == 2 && payload[m + 1] == 63;
            proof {
                let data = p.skip(m + 1);
                if query {
                    assert(data =~= seq![63u8]);
                } else if data.len() == 1 {
                    assert(data[0] == p[m + 1]);
                }
            }
            if !query {
                match b64_decode_from(payload.as_slice(), m + 1) {
                    Some(bytes) => {
                        self.clip = Some(bytes);
                        proof { assert(self@ =~= TermV { clip: Some(bytes@), ..old(self)@ }); }
                    },
                    None => {},
                }
            }
        } else {
            proof { assert(find_byte(p, 59, 0) is None); }
        }
    }

    /// Executes the OSC string collected so far: `0;title` and `2;title` set the title.
    #[verifier::rlimit(40)]
    pub(crate) fn osc_dispatch(&mut self)
        requires
            old(self).wf(),
        ensures
            final(self)@ == old(self)@.osc_dispatch(),
            final(self).wf(),
            grows_by(old(self)@, final(self)@, 0),
    {
        let mut osc: Vec<u8> = Vec::new();
        std::mem::swap(&mut osc, &mut self.osc);
        let ghost o = osc@;
        let over = self.osc_over;
        self.osc_over = false;
        proof { assert(self@ =~= TermV { osc: Seq::empty(), osc_over: false, ..old(self)@ }); }
        if over {
            return;
        }
        let mut k: usize = 0;
        while k < osc.len() && osc[k] != 59
            invariant
                k <= o.len(),
                o == osc@,
                find_byte(o, 59, k as int) == find_byte(o, 59, 0),
            decreases o.len() - k,
        {
            k = k + 1;
        }
        let ghost num = o.take(k as int);
        proof {
            if k < o.len() {
                assert(find_byte(o, 59, 0) == Some(k as int));
            } else {
                assert(find_byte(o, 59, 0) is None);
                assert(num =~= o);
            }
        }
        let mut d: usize = 0;
        let mut v: u64 = 0;
        while d < k && 48 <= osc[d] && osc[d] <= 57
            invariant
                d <= k <= o.len(),
                o == osc@,
                num == o.take(k as int),
                all_digits(num.take(d as int)),
                v == (if digits_value(num.take(d as int)) > u32::MAX { u32::MAX as nat + 1 } else { digits_value(num.take(d as int)) }),
            decreases k - d,
        {
            let ghost prev = num.take(d as int);
            proof {
                assert(num.take(d + 1).drop_last() =~= prev);
                assert(num.take(d + 1).last() == osc@[d as int]);
            }
            let dig = (osc[d] - 48) as u64;
            v = if v > 0xffff_ffff { v } else if v * 10 + dig > 0xffff_ffff { 0x1_0000_0000 } else { v * 10 + dig };
            d = d + 1;
            proof {
                assert forall|i: int| 0 <= i < d implies 48 <= #[trigger] num.take(d as int)[i] <= 57 by {
                    if i < d - 1 {
                        assert(num.take(d as int)[i] == prev[i]);
                    }
                }
            }
        }
        if d < k {
            proof {
                assert(!all_digits(num)) by {
                    assert(!(48 <= num[d as int] <= 57));
                }
            }
            return;
        }
        proof { assert(num.take(d as int) =~= num); }
        let cmd: u64 = if k == 0 || v > 0xffff_ffff { 0xffff_ffff } else { v };
        if k < osc.len() && cmd == 52 {
            self.osc_clip(&osc, k);
            proof { assert(self@ =~= old(self)@.osc_dispatch()); }
        }
        if k < osc.len() && (cmd == 0 || cmd == 2) {
            let payload = tail_from(&osc, k);
            let chars = lossy_chars(payload.as_slice());
            let t = clean_title(chars.as_slice());
            let title = string_from_chars(&t);
            self.title = Some(title);
            proof { assert(self@ =~= old(self)@.osc_dispatch()); }
        }
    }

    /// The state a byte after ESC starts: CSI, OSC, a string, a character set choice, or ESC again.
    #[verifier::rlimit(40)]
    fn esc_enter(&mut self, b: u8)
        requires
            old(self).wf(),
            !(b == 55 || b == 56 || b == 68 || b == 69 || b == 72 || b == 77 || b == 99),
        ensures
            final(self)@ == old(self)@.esc(b),
            final(self).wf(),
            grows_by(old(self)@, final(self)@, 0),
    {
        self.st = St::Ground;
        if b == 91 {
            self.params = vec![0u32; 16];
            self.np = 0;
            self.seen = false;
            self.colon = 0;
            self.privc = 0;
            self.inter = 0;
            self.st = St::Csi;
        } else if b == 93 {
            self.osc.clear();
            self.osc_over = false;
            self.esc_str = false;
            self.st = St::Osc;
        } else if b == 80 || b == 88 || b == 94 || b == 95 {
            self.esc_str = false;
            self.st = St::Str;
        } else if b == 40 || b == 41 || b == 35 {
            self.st = St::EscInt(b);
        } else if b == 0x1b {
            self.st = St::Esc;
        }
        proof { assert(self@ =~~= old(self)@.esc(b)); }
    }

    /// The byte after ESC.
    #[verifier::rlimit(40)]
    pub(crate) fn esc(&mut self, b: u8)
        requires
            old(self).wf(),
            room(old(self)@, 0),
        ensures
            final(self)@ == old(self)@.esc(b),
            final(self).wf(),
            grows_by(old(self)@, final(self)@, 1),
    {
        if !(b == 55 || b == 56 || b == 68 || b == 69 || b == 72 || b == 77 || b == 99) {
            self.esc_enter(b);
            return;
        }
        self.st = St::Ground;
        let ghost s = self@;
        proof { assert(s =~= TermV { st: St::Ground, ..old(self)@ }); }
        if b == 55 {
            self.save_cursor();
        } else if b == 56 {
            self.restore_cursor();
        } else if b == 68 {
            self.linefeed();
        } else if b == 69 {
            self.x = 0;
            proof { assert(self@ =~= TermV { x: 0, ..s }); }
            self.linefeed();
        } else if b == 72 {
            let x = self.x;
            self.tabs.set(x, true);
            proof { assert(self@ =~~= TermV { tabs: s.tabs.update(s.x as int, true), ..s }); }
        } else if b == 77 {
            self.reverse_index();
        } else {
            self.reset_all();
        }
    }

    /// One byte into the UTF-8 decoder.
    fn utf8_push(&mut self, b: u8) -> (r: Decoded)
        requires
            old(self).wf(),
        ensures
            (final(self)@, r) == old(self)@.utf8_push(b),
            final(self).wf(),
            grows_by(old(self)@, final(self)@, 0),
    {
        if self.uneed == 0 {
            if b <= 0x7f {
                return Decoded::Done(b as u32);
            } else if 0xc0 <= b && b <= 0xdf {
                self.ucp = (b & 0x1f) as u32;
                self.uneed = 1;
            } else if 0xe0 <= b && b <= 0xef {
                self.ucp = (b & 0x0f) as u32;
                self.uneed = 2;
            } else if 0xf0 <= b && b <= 0xf7 {
                self.ucp = (b & 0x07) as u32;
                self.uneed = 3;
            } else {
                return Decoded::Invalid;
            }
            self.uhave = 0;
            proof { assert(self@ =~= old(self)@.utf8_push(b).0); }
            return Decoded::Pending;
        }
        if b & 0xc0 != 0x80 {
            self.uneed = 0;
            proof { assert(self@ =~= old(self)@.utf8_push(b).0); }
            return Decoded::Invalid;
        }
        self.ucp = (self.ucp << 6u32) | ((b & 0x3f) as u32);
        self.uhave = self.uhave + 1;
        if self.uhave < self.uneed {
            proof { assert(self@ =~= old(self)@.utf8_push(b).0); }
            return Decoded::Pending;
        }
        let cp = self.ucp;
        let n = self.uneed;
        self.uneed = 0;
        let bad = (n == 1 && cp < 0x80) || (n == 2 && cp < 0x800) || (n == 3 && cp < 0x10000)
            || (0xd800 <= cp && cp <= 0xdfff) || cp > 0x10ffff;
        proof { assert(self@ =~= old(self)@.utf8_push(b).0); }
        Decoded::Done(if bad { 0xfffd } else { cp })
    }

    /// A byte in the ground state with no UTF-8 sequence pending.
    fn ground_plain(&mut self, b: u8)
        requires
            old(self).wf(),
            room(old(self)@, 1),
        ensures
            final(self)@ == old(self)@.ground_plain(b),
            final(self).wf(),
            grows_by(old(self)@, final(self)@, 2),
    {
        if b == 0x1b {
            self.st = St::Esc;
            proof { assert(self@ =~= old(self)@.ground_plain(b)); }
        } else if b <= 0x1f || b == 0x7f {
            self.ctrl(b);
        } else if 0x20 <= b && b <= 0x7e {
            self.put_char(b as u32);
        } else {
            let r = self.utf8_push(b);
            match r {
                Decoded::Done(cp) => self.put_char(cp),
                Decoded::Pending => {}
                Decoded::Invalid => self.put_char(0xfffd),
            }
        }
    }

    /// A byte in the ground state.
    fn ground(&mut self, b: u8)
        requires
            old(self).wf(),
            room(old(self)@, 3),
        ensures
            final(self)@ == old(self)@.ground(b),
            final(self).wf(),
            grows_by(old(self)@, final(self)@, 4),
    {
        if self.uneed > 0 {
            let r = self.utf8_push(b);
            match r {
                Decoded::Done(cp) => self.put_char(cp),
                Decoded::Pending => {}
                Decoded::Invalid => {
                    self.put_char(0xfffd);
                    if b < 0x80 || b >= 0xc0 {
                        self.ground_plain(b);
                    }
                }
            }
        } else {
            self.ground_plain(b);
        }
    }

    /// A parameter byte of a control sequence.
    fn csi_param(&mut self, b: u8)
        requires
            old(self).wf(),
            old(self).st == St::Csi,
            48 <= b <= 63,
        ensures
            final(self)@ == old(self)@.csi_byte(b),
            final(self).wf(),
            grows_by(old(self)@, final(self)@, 0),
    {
        if 48 <= b && b <= 57 {
            let np = self.np;
            let p = self.params[np] * 10 + (b - 48) as u32;
            let v = if p < 65535 { p } else { 65535 };
            self.params.set(np, v);
            self.seen = true;
        } else if b == 59 || b == 58 {
            if self.np < 15 {
                self.np = self.np + 1;
                if b == 58 {
                    self.colon = self.colon | (1u32 << (self.np as u32));
                }
            }
            self.seen = true;
        } else if !self.seen && self.np == 0 {
            self.privc = b;
        }
        proof { assert(self@ =~~= old(self)@.csi_byte(b)); }
    }

    /// A control byte inside a control sequence: ESC, CAN, SUB or a C0 control.
    fn csi_control(&mut self, b: u8)
        requires
            old(self).wf(),
            room(old(self)@, 0),
            b <= 0x1f,
        ensures
            final(self)@ == old(self)@.csi_byte(b),
            final(self).wf(),
            grows_by(old(self)@, final(self)@, 1),
    {
        if b == 0x1b {
            self.st = St::Esc;
            proof { assert(self@ =~= old(self)@.csi_byte(b)); }
        } else if b == 0x18 || b == 0x1a {
            self.st = St::Ground;
            proof { assert(self@ =~= old(self)@.csi_byte(b)); }
        } else {
            self.ctrl(b);
        }
    }

    /// An intermediate or final byte of a control sequence, or one that is ignored.
    fn csi_end(&mut self, b: u8)
        requires
            old(self).wf(),
            old(self)@.lines_total() + budget(old(self)@) <= u64::MAX,
            b > 0x1f,
            !(old(self).st == St::Csi && 48 <= b <= 63),
        ensures
            final(self)@ == old(self)@.csi_byte(b),
            final(self).wf(),
            grows_by(old(self)@, final(self)@, budget(old(self)@)),
    {
        if 0x20 <= b && b <= 0x2f {
            self.inter = b;
            self.st = St::CsiInt;
            proof { assert(self@ =~= old(self)@.csi_byte(b)); }
        } else if 0x40 <= b && b <= 0x7e {
            self.st = St::Ground;
            proof { assert(self@ =~= TermV { st: St::Ground, ..old(self)@ }); }
            self.csi(b);
        }
    }

    /// A byte inside a control sequence.
    fn csi_byte(&mut self, b: u8)
        requires
            old(self).wf(),
            old(self)@.lines_total() + budget(old(self)@) <= u64::MAX,
        ensures
            final(self)@ == old(self)@.csi_byte(b),
            final(self).wf(),
            grows_by(old(self)@, final(self)@, budget(old(self)@)),
    {
        proof {
            let c = self.cols as int;
            let r = self.rows as int;
            assert(0 <= c * r) by (nonlinear_arith) requires 0 <= c, 0 <= r;
        }
        if b <= 0x1f {
            self.csi_control(b);
        } else if self.st == St::Csi && 48 <= b && b <= 63 {
            self.csi_param(b);
        } else {
            self.csi_end(b);
        }
    }

    /// A byte inside an OSC string.
    fn osc_byte(&mut self, b: u8)
        requires
            old(self).wf(),
            room(old(self)@, 0),
        ensures
            final(self)@ == old(self)@.osc_byte(b),
            final(self).wf(),
            grows_by(old(self)@, final(self)@, 1),
    {
        if self.esc_str {
            self.esc_str = false;
            self.st = St::Ground;
            proof { assert(self@ =~= TermV { esc_str: false, st: St::Ground, ..old(self)@ }); }
            if b == 92 {
                self.osc_dispatch();
            } else {
                self.esc(b);
            }
        } else if b == 7 {
            self.st = St::Ground;
            proof { assert(self@ =~= TermV { st: St::Ground, ..old(self)@ }); }
            self.osc_dispatch();
        } else if b == 0x1b {
            self.esc_str = true;
            proof { assert(self@ =~= old(self)@.osc_byte(b)); }
        } else if b == 0x18 || b == 0x1a {
            self.st = St::Ground;
            proof { assert(self@ =~= old(self)@.osc_byte(b)); }
        } else if self.osc_over || self.osc.len() >= OSC_MAX {
            self.osc_over = true;
            proof { assert(self@ =~= old(self)@.osc_byte(b)); }
        } else {
            self.osc.push(b);
            proof { assert(self@ =~= old(self)@.osc_byte(b)); }
        }
    }

    /// A byte inside a DCS, SOS, PM or APC string, which is ignored.
    fn str_byte(&mut self, b: u8)
        requires
            old(self).wf(),
        ensures
            final(self)@ == old(self)@.str_byte(b),
            final(self).wf(),
            grows_by(old(self)@, final(self)@, 0),
    {
        if self.esc_str {
            if b != 0x1b {
                self.esc_str = false;
                self.st = St::Ground;
            }
        } else if b == 0x1b {
            self.esc_str = true;
        } else if b == 7 || b == 0x18 || b == 0x1a {
            self.st = St::Ground;
        }
        proof { assert(self@ =~= old(self)@.str_byte(b)); }
    }

    /// One input byte through the parser.
    pub(crate) fn step(&mut self, b: u8)
        requires
            old(self).wf(),
            old(self)@.lines_total() + budget(old(self)@) <= u64::MAX,
        ensures
            final(self)@ == old(self)@.step(b),
            final(self).wf(),
            grows_by(old(self)@, final(self)@, budget(old(self)@)),
    {
        proof {
            reveal(TermV::step);
            let c = self.cols as int;
            let r = self.rows as int;
            assert(0 <= c * r) by (nonlinear_arith) requires 0 <= c, 0 <= r;
        }
        match self.st {
            St::Ground => self.ground(b),
            St::Esc => self.esc(b),
            St::EscInt(i) => {
                if i == 40 {
                    self.g0 = b == 48;
                } else if i == 41 {
                    self.g1 = b == 48;
                }
                self.st = St::Ground;
                proof { assert(self@ =~= old(self)@.step(b)); }
            }
            St::Csi => self.csi_byte(b),
            St::CsiInt => self.csi_byte(b),
            St::Osc => self.osc_byte(b),
            St::Str => self.str_byte(b),
        }
    }

    /// Writes the bytes `buf[i..i + n]` into row `y` from column `x` on.
    fn write_cells(&mut self, y: usize, x: usize, buf: &[u8], i: usize, n: usize, fg: u32, bg: u32, attr: u32)
        requires
            old(self).wf(),
            y < old(self).rows,
            n <= old(self).cols - x,
            x < old(self).cols,
            i + n <= buf.len(),
        ensures
            final(self)@ == old(self)@.write_cells(y as int, x as int, buf@.subrange(i as int, i + n), fg, bg, attr),
            final(self).wf(),
            grows_by(old(self)@, final(self)@, 0),
    {
        let ghost s0 = self@;
        let ghost run = buf@.subrange(i as int, i + n);
        let ghost l0 = s0.scr()[y as int];
        proof { lemma_scr_ok(s0); lemma_set_line_same(s0, y as int); }
        let cols = self.cols;
        let mut k: usize = 0;
        while k < n
            invariant
                k <= n <= cols - x,
                x < cols,
                cols == self.cols,
                self.wf(),
                y < s0.rows,
                s0.wf(),
                i + n <= buf.len(),
                run == buf@.subrange(i as int, i + n),
                l0 == s0.scr()[y as int],
                l0.cells.len() == cols,
                self@ == s0.set_line(y as int, self@.scr()[y as int]),
                self@.scr()[y as int].wrapped == l0.wrapped,
                self@.scr()[y as int].cells.len() == cols,
                forall|j: int| 0 <= j < cols ==> #[trigger] self@.scr()[y as int].cells[j] == (if x <= j < x + k { Cell { cp: run[j - x] as u32, fg, bg, attr } } else { l0.cells[j] }),
                grows_by(s0, self@, 0),
            decreases n - k,
        {
            let ghost before = self@;
            let ghost li = before.scr()[y as int];
            let c = Cell { cp: buf[i + k] as u32, fg, bg, attr };
            proof { lemma_scr_ok(before); lemma_set_cell_scr(before, y as int, (x + k) as int, c); }
            self.set_cell(y, x + k, c);
            k = k + 1;
            proof {
                let ln = LineV { cells: li.cells.update(x + k - 1, c), wrapped: li.wrapped };
                assert(self@ == before.set_line(y as int, ln));
                lemma_set_line_twice(s0, y as int, li, ln);
                assert(self@.scr()[y as int] == ln);
            }
        }
        proof {
            let t = LineV {
                cells: Seq::new(l0.cells.len(), |j: int| if x <= j < x + run.len() { Cell { cp: run[j - x] as u32, fg, bg, attr } } else { l0.cells[j] }),
                wrapped: l0.wrapped,
            };
            assert(self@.scr()[y as int] =~~= t);
        }
    }

    /// Writes `buf[i..i + n]`, printable ASCII that fits on the row, at the cursor.
    fn chunk(&mut self, buf: &[u8], i: usize, n: usize)
        requires
            old(self).wf(),
            1 <= n <= old(self).cols - old(self).x,
            i + n <= buf.len(),
        ensures
            final(self)@ == old(self)@.chunk(buf@.subrange(i as int, i + n)),
            final(self).wf(),
            grows_by(old(self)@, final(self)@, 0),
    {
        proof { reveal(TermV::chunk); }
        let (x, y) = (self.x, self.y);
        let (fg, bg, attr) = (self.fg, self.bg, self.attr);
        self.unlink_wide(y, x);
        self.unlink_wide(y, x + n - 1);
        self.write_cells(y, x, buf, i, n, fg, bg, attr);
        let c = buf[i + n - 1] as u32;
        proof { assert(buf@.subrange(i as int, i + n)[n - 1] == buf@[i + n - 1]); }
        self.advance(c, x, n);
    }

    /// Prints `buf[start..end]`, printable ASCII, a row's worth at a time.
    fn put_run(&mut self, buf: &[u8], start: usize, end: usize)
        requires
            old(self).wf(),
            start <= end <= buf.len(),
            room(old(self)@, 2 * (end - start)),
        ensures
            final(self)@ == old(self)@.put_run(buf@.subrange(start as int, end as int)),
            final(self).wf(),
            grows_by(old(self)@, final(self)@, 2 * (end - start)),
    {
        proof { reveal(TermV::put_run); }
        let mut i = start;
        while i < end
            invariant
                self.wf(),
                start <= i <= end <= buf.len(),
                room(old(self)@, 2 * (end - start)),
                self@.put_run(buf@.subrange(i as int, end as int)) == old(self)@.put_run(buf@.subrange(start as int, end as int)),
                grows_by(old(self)@, self@, 2 * (i - start)),
            decreases end - i,
        {
            let ghost sub = buf@.subrange(i as int, end as int);
            if self.pend || self.x >= self.cols {
                proof {
                    assert(sub.drop_first() =~= buf@.subrange(i + 1, end as int));
                    assert(sub[0] == buf@[i as int]);
                    assert(self@.put_run(sub) == self@.put_char(sub[0] as u32).put_run(sub.drop_first())) by { reveal(TermV::put_run); }
                }
                self.put_char(buf[i] as u32);
                i = i + 1;
            } else {
                let room_left = self.cols - self.x;
                let n = if room_left < end - i { room_left } else { end - i };
                proof {
                    assert(sub.take(n as int) =~= buf@.subrange(i as int, i + n));
                    assert(sub.skip(n as int) =~= buf@.subrange(i + n, end as int));
                    assert(n == super::model::min(self@.cols - self@.x, sub.len() as int));
                    assert(self@.put_run(sub) == self@.chunk(sub.take(n as int)).put_run(sub.skip(n as int))) by { reveal(TermV::put_run); }
                }
                self.chunk(buf, i, n);
                i = i + n;
            }
        }
    }

    /// Feeds the bytes of `buf` through the terminal: printable text is drawn at the
    /// cursor, controls and escape sequences act on the screen, and replies to the host
    /// collect in `out`.
    pub fn feed(&mut self, buf: &[u8])
        requires
            old(self).wf(),
            old(self)@.lines_total() + buf@.len() * budget(old(self)@) <= u64::MAX,
        ensures
            final(self)@ == old(self)@.feed(buf@),
            final(self).wf(),
            same_frame(old(self)@, final(self)@),
            final(self)@.x < final(self)@.cols && final(self)@.y < final(self)@.rows,
            final(self)@.sb.len() <= final(self)@.sb_cap,
            title_ok(final(self)@.title),
            final(self)@.lines_total() <= old(self)@.lines_total() + buf@.len() * budget(old(self)@),
            forall|b: Seq<u8>|
                old(self)@.lines_total() + (buf@.len() + b.len()) * budget(old(self)@) <= u64::MAX
                && (b.len() == 0 || !final(self)@.fast(b[0]) || clean_split(final(self)@))
                ==> #[trigger] old(self)@.feed(buf@ + b) == final(self)@.feed(b),
    {
        proof { reveal(TermV::feed); }
        let ghost bb = budget(old(self)@);
        proof {
            let c = self.cols as int;
            let r = self.rows as int;
            assert(0 <= c * r) by (nonlinear_arith) requires 0 <= c, 0 <= r;
            assert(buf@.skip(0) =~= buf@);
        }
        let mut i: usize = 0;
        while i < buf.len()
            invariant
                self.wf(),
                i <= buf@.len(),
                self@.feed(buf@.skip(i as int)) == old(self)@.feed(buf@),
                same_frame(old(self)@, self@),
                bb == budget(old(self)@),
                bb == budget(self@),
                bb >= self.rows + 2,
                self@.lines_total() + (buf@.len() - i) * bb <= u64::MAX,
                self@.lines_total() + (buf@.len() - i) * bb <= old(self)@.lines_total() + buf@.len() * bb,
                forall|b: Seq<u8>|
                    (i < buf@.len() || b.len() == 0 || !self@.fast(b[0]) || clean_split(self@))
                    && old(self)@.lines_total() + (buf@.len() + b.len()) * bb <= u64::MAX
                    ==> #[trigger] old(self)@.feed(buf@ + b) == self@.feed(buf@.skip(i as int) + b),
            decreases buf@.len() - i,
        {
            let b = buf[i];
            let gfx = if self.cs == 1 { self.g1 } else { self.g0 };
            let ghost rest = buf@.skip(i as int);
            let ghost m = buf@.len() - i;
            let ghost l0 = self@.lines_total();
            if 0x20 <= b && b < 0x7f && self.st == St::Ground && self.uneed == 0 && !gfx {
                let mut j = i;
                while j < buf.len() && 0x20 <= buf[j] && buf[j] < 0x7f
                    invariant
                        i <= j <= buf@.len(),
                        forall|k: int| i <= k < j ==> printable(#[trigger] buf@[k]),
                    decreases buf@.len() - j,
                {
                    j = j + 1;
                }
                let ghost k = j - i;
                proof {
                    assert(rest[0] == b);
                    assert forall|q: int| 0 <= q < k implies printable(#[trigger] rest[q]) by {
                        assert(rest[q] == buf@[i + q]);
                    }
                    if j < buf@.len() {
                        assert(rest[k] == buf@[j as int]);
                    }
                    lemma_printable_run(rest, k);
                    assert(rest.take(k) =~= buf@.subrange(i as int, j as int));
                    assert(rest.skip(k) =~= buf@.skip(j as int));
                    lemma_run_budget(l0, self.rows as int, k, m, bb);
                    assert(self@.fast(rest[0]));
                    assert(self@.feed(rest) == self@.put_run(rest.take(k)).feed(rest.skip(k))) by { reveal(TermV::feed); }
                }
                let ghost s0 = self@;
                let ghost lt0 = old(self)@.lines_total() + buf@.len() * bb;
                proof {
                    assert(forall|b: Seq<u8>|
                        old(self)@.lines_total() + (buf@.len() + b.len()) * bb <= u64::MAX
                        ==> #[trigger] old(self)@.feed(buf@ + b) == s0.feed(rest + b));
                    lemma_put_run_wf(s0, rest.take(k));
                }
                self.put_run(buf, i, j);
                proof {
                    lemma_run_budget_after(l0, self@.lines_total(), k, m, bb);
                    assert(k * bb >= 2 * k) by (nonlinear_arith) requires k >= 1, bb >= 2;
                    lemma_budget_keep(l0, self@.lines_total(), m, k, bb, lt0);
                    lemma_run_pieces(old(self)@, buf@, s0, self@, i as int, j as int, bb);
                }
                i = j;
            } else {
                proof {
                    assert(rest[0] == b);
                    assert(rest.drop_first() =~= buf@.skip(i + 1));
                    lemma_step_budget(l0, m, bb);
                    assert(!self@.fast(rest[0]));
                    assert(self@.feed(rest) == self@.step(rest[0]).feed(rest.drop_first())) by { reveal(TermV::feed); }
                }
                let ghost s0 = self@;
                let ghost lt0 = old(self)@.lines_total() + buf@.len() * bb;
                proof {
                    assert(forall|c: Seq<u8>|
                        old(self)@.lines_total() + (buf@.len() + c.len()) * bb <= u64::MAX
                        ==> #[trigger] old(self)@.feed(buf@ + c) == s0.feed(rest + c));
                }
                self.step(b);
                proof {
                    lemma_step_budget_after(l0, self@.lines_total(), m, bb);
                    lemma_budget_keep(l0, self@.lines_total(), m, 1, bb, lt0);
                    assert forall|c: Seq<u8>|
                        old(self)@.lines_total() + (buf@.len() + c.len()) * bb <= u64::MAX
                        implies #[trigger] old(self)@.feed(buf@ + c) == self@.feed(buf@.skip(i + 1) + c) by {
                        reveal(TermV::feed);
                        let rc = rest + c;
                        assert(rc[0] == b);
                        assert(rc.drop_first() =~= buf@.skip(i + 1) + c);
                        assert(old(self)@.feed(buf@ + c) == s0.feed(rc));
                    }
                }
                i = i + 1;
            }
        }
        proof {
            assert(buf@.skip(i as int) =~= Seq::<u8>::empty());
            assert forall|b: Seq<u8>|
                old(self)@.lines_total() + (buf@.len() + b.len()) * budget(old(self)@) <= u64::MAX
                && (b.len() == 0 || !self@.fast(b[0]) || clean_split(self@))
                implies #[trigger] old(self)@.feed(buf@ + b) == self@.feed(b) by {
                assert(buf@.skip(i as int) + b =~= b);
                assert(old(self)@.feed(buf@ + b) == self@.feed(buf@.skip(i as int) + b));
            }
        }
    }
}

} // verus!

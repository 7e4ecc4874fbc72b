//! Names shown for the window and its dock icon.
use vstd::prelude::*;

use crate::input::str_chars;
use crate::vt::string_from_chars;

verus! {

/// A name for the dock icon: up to eight characters as they are, a longer one cut to
/// seven and `~`.
pub open spec fn icon_name(s: Seq<char>) -> Seq<char> {
    if s.len() <= 8 { s } else { s.take(7).push('~') }
}

/// A name for the dock icon of at most eight characters.
pub fn icon8(text: &str) -> (r: String)
    ensures
        r@ == icon_name(text@),
{
    let cs = str_chars(text);
    if cs.len() <= 8 {
        return string_from_chars(&cs);
    }
    let mut out: Vec<char> = Vec::new();
    let mut i: usize = 0;
    while i < 7
        invariant
            i <= 7,
            7 < cs@.len(),
            out@ == cs@.take(i as int),
        decreases 7 - i,
    {
        out.push(cs[i]);
        i = i + 1;
        proof { assert(out@ =~= cs@.take(i as int)); }
    }
    out.push('~');
    string_from_chars(&out)
}

/// The path `p` with the home directory `h`, where it starts with it, written `~`.
pub open spec fn abbrev_home(p: Seq<char>, home: Option<Seq<char>>) -> Seq<char> {
    match home {
        None => p,
        Some(h) => if p == h {
            seq!['~']
        } else if h.len() < p.len() && p.take(h.len() as int) == h && p[h.len() as int] == '/' {
            seq!['~'] + p.skip(h.len() as int)
        } else {
            p
        },
    }
}

/// An optional string, as characters.
pub open spec fn opt_view(o: Option<&str>) -> Option<Seq<char>> {
    match o {
        Some(s) => Some(s@),
        None => None,
    }
}

/// The path `p` with the home directory `home`, where it starts with it, written `~`.
pub fn tilde(p: &str, home: Option<&str>) -> (r: String)
    ensures
        r@ == abbrev_home(p@, opt_view(home)),
{
    let ps = str_chars(p);
    let h = match home {
        None => { return string_from_chars(&ps); }
        Some(h) => str_chars(h),
    };
    let mut same_start = h.len() <= ps.len();
    let mut i: usize = 0;
    while i < h.len() && same_start
        invariant
            i <= h@.len(),
            same_start ==> h@.len() <= ps@.len(),
            same_start == (h@.len() <= ps@.len() && forall|k: int| 0 <= k < i ==> ps@[k] == h@[k]),
        decreases h@.len() - i,
    {
        same_start = ps[i] == h[i];
        i = i + 1;
    }
    proof {
        if same_start {
            assert(ps@.take(h@.len() as int) =~= h@);
        } else if h@.len() <= ps@.len() {
            assert(ps@.take(h@.len() as int) != h@) by {
                let k = (i - 1) as int;
                assert(ps@.take(h@.len() as int)[k] == ps@[k]);
            }
        }
    }
    if same_start && h.len() == ps.len() {
        proof { assert(ps@ =~= h@); }
        let t = vec!['~'];
        return string_from_chars(&t);
    }
    if same_start && ps[h.len()] == '/' {
        let mut out: Vec<char> = vec!['~'];
        let mut j = h.len();
        while j < ps.len()
            invariant
                h@.len() <= j <= ps@.len(),
                out@ == seq!['~'] + ps@.subrange(h@.len() as int, j as int),
            decreases ps@.len() - j,
        {
            out.push(ps[j]);
            j = j + 1;
            proof { assert(out@ =~= seq!['~'] + ps@.subrange(h@.len() as int, j as int)); }
        }
        proof {
            assert(ps@.subrange(h@.len() as int, ps@.len() as int) =~= ps@.skip(h@.len() as int));
            assert(ps@ != h@);
        }
        return string_from_chars(&out);
    }
    proof {
        if ps@ == h@ {
            assert(same_start) by {
                assert(forall|k: int| 0 <= k < h@.len() ==> ps@[k] == h@[k]);
            }
        }
    }
    string_from_chars(&ps)
}

/// The end of the run from `i` of bytes that are zero (or, for `zero` false, not zero):
/// the first index from `i` on where the run stops, or the length.
pub open spec fn run_end(s: Seq<u8>, i: int, zero: bool) -> int
    decreases s.len() - i,
{
    if i < 0 || i >= s.len() || ((s[i] == 0) != zero) {
        i
    } else {
        run_end(s, i + 1, zero)
    }
}

proof fn lemma_run_end(s: Seq<u8>, i: int, zero: bool)
    requires
        0 <= i <= s.len(),
    ensures
        i <= run_end(s, i, zero) <= s.len(),
    decreases s.len() - i,
{
    if i < s.len() && ((s[i] == 0) == zero) {
        lemma_run_end(s, i + 1, zero);
    }
}

fn run_end_at(s: &[u8], i: usize, zero: bool) -> (e: usize)
    requires
        i <= s@.len(),
    ensures
        e == run_end(s@, i as int, zero),
        i <= e <= s@.len(),
{
    proof { lemma_run_end(s@, i as int, zero); }
    let mut k = i;
    while k < s.len() && ((s[k] == 0) == zero)
        invariant
            i <= k <= s@.len(),
            run_end(s@, k as int, zero) == run_end(s@, i as int, zero),
        decreases s@.len() - k,
    {
        k = k + 1;
    }
    k
}

fn copy_range(s: &[u8], a: usize, b: usize) -> (r: Vec<u8>)
    requires
        a <= b <= s@.len(),
    ensures
        r@ == s@.subrange(a as int, b as int),
{
    let mut r: Vec<u8> = Vec::new();
    let mut k = a;
    while k < b
        invariant
            a <= k <= b <= s@.len(),
            r@ == s@.subrange(a as int, k as int),
        decreases b - k,
    {
        r.push(s[k]);
        k = k + 1;
        proof { assert(r@ =~= s@.subrange(a as int, k as int)); }
    }
    r
}

/// The text of a fixed-size field `buf[start..end]`: its bytes up to the first NUL; none
/// where that is empty.
pub open spec fn nul_field_spec(buf: Seq<u8>, start: int, end: int) -> Option<Seq<u8>> {
    let e = run_end(buf, start, false);
    let e2 = if e < end { e } else { end };
    if e2 <= start { None } else { Some(buf.subrange(start, e2)) }
}

/// The text of the fixed-size field `buf[start..end]`: its bytes up to the first NUL;
/// none where that is empty.
pub fn nul_field(buf: &[u8], start: usize, end: usize) -> (r: Option<Vec<u8>>)
    requires
        start <= end <= buf@.len(),
    ensures
        match r {
            None => nul_field_spec(buf@, start as int, end as int) is None,
            Some(v) => nul_field_spec(buf@, start as int, end as int) == Some(v@),
        },
{
    let e = run_end_at(buf, start, false);
    let e2 = if e < end { e } else { end };
    if e2 <= start {
        None
    } else {
        Some(copy_range(buf, start, e2))
    }
}

/// The first argument of a process in the kernel's process-arguments buffer: after the
/// 4-byte count, the executable path and the NULs that pad it; none where it is empty or
/// the buffer is shorter than 5 bytes.
pub open spec fn argv0_spec(buf: Seq<u8>) -> Option<Seq<u8>> {
    if buf.len() < 5 {
        None
    } else {
        let a = run_end(buf, 4, false);
        let b = run_end(buf, a, true);
        let c = run_end(buf, b, false);
        if b == c { None } else { Some(buf.subrange(b, c)) }
    }
}

/// The first argument of a process in the kernel's process-arguments buffer.
pub fn procargs_argv0(buf: &[u8]) -> (r: Option<Vec<u8>>)
    ensures
        match r {
            None => argv0_spec(buf@) is None,
            Some(v) => argv0_spec(buf@) == Some(v@),
        },
{
    if buf.len() < 5 {
        return None;
    }
    let a = run_end_at(buf, 4, false);
    let b = run_end_at(buf, a, true);
    let c = run_end_at(buf, b, false);
    if b == c {
        None
    } else {
        Some(copy_range(buf, b, c))
    }
}

/// Where the last component of the path `s` starts: just after its last `/`, scanning
/// from `i` with the last seen start `st`.
pub open spec fn comp_start(s: Seq<char>, i: int, st: int) -> int
    decreases s.len() - i,
{
    if i < 0 || i >= s.len() {
        st
    } else if s[i] == '/' {
        comp_start(s, i + 1, i + 1)
    } else {
        comp_start(s, i + 1, st)
    }
}

proof fn lemma_comp_start(s: Seq<char>, i: int, st: int)
    requires
        0 <= i <= s.len(),
        0 <= st <= i,
    ensures
        st <= comp_start(s, i, st) <= s.len(),
    decreases s.len() - i,
{
    if i < s.len() {
        if s[i] == '/' {
            lemma_comp_start(s, i + 1, i + 1);
        } else {
            lemma_comp_start(s, i + 1, st);
        }
    }
}

/// The first index from `i` on that is not `-`, or the length.
pub open spec fn dash_end(s: Seq<char>, i: int) -> int
    decreases s.len() - i,
{
    if i < 0 || i >= s.len() || s[i] != '-' { i } else { dash_end(s, i + 1) }
}

proof fn lemma_dash_end(s: Seq<char>, i: int)
    requires
        0 <= i <= s.len(),
    ensures
        i <= dash_end(s, i) <= s.len(),
    decreases s.len() - i,
{
    if i < s.len() && s[i] == '-' {
        lemma_dash_end(s, i + 1);
    }
}

/// The last component of the path `s`.
pub open spec fn base_name(s: Seq<char>) -> Seq<char> {
    s.subrange(comp_start(s, 0, 0), s.len() as int)
}

/// The name a command goes by: the last component of its path without the dashes a login
/// shell's name starts with; none where nothing is left.
pub open spec fn command_spec(s: Seq<char>) -> Option<Seq<char>> {
    let b = base_name(s);
    let d = dash_end(b, 0);
    if d >= b.len() { None } else { Some(b.skip(d)) }
}

pub(crate) fn last_component(cs: &Vec<char>) -> (k: usize)
    ensures
        k == comp_start(cs@, 0, 0),
        k <= cs@.len(),
{
    proof { lemma_comp_start(cs@, 0, 0); }
    let mut i: usize = 0;
    let mut st: usize = 0;
    while i < cs.len()
        invariant
            i <= cs@.len(),
            st <= i,
            comp_start(cs@, i as int, st as int) == comp_start(cs@, 0, 0),
        decreases cs@.len() - i,
    {
        if cs[i] == '/' {
            st = i + 1;
        }
        i = i + 1;
    }
    st
}

pub(crate) fn chars_from(cs: &Vec<char>, a: usize) -> (r: Vec<char>)
    requires
        a <= cs@.len(),
    ensures
        r@ == cs@.subrange(a as int, cs@.len() as int),
{
    let mut r: Vec<char> = Vec::new();
    let mut k = a;
    while k < cs.len()
        invariant
            a <= k <= cs@.len(),
            r@ == cs@.subrange(a as int, k as int),
        decreases cs@.len() - k,
    {
        r.push(cs[k]);
        k = k + 1;
        proof { assert(r@ =~= cs@.subrange(a as int, k as int)); }
    }
    r
}

/// The name a command goes by: the last component of its path without leading dashes.
pub fn command_name(name: &str) -> (r: Option<String>)
    ensures
        match r {
            None => command_spec(name@) is None,
            Some(v) => command_spec(name@) == Some(v@),
        },
{
    let cs = str_chars(name);
    let st = last_component(&cs);
    let b = chars_from(&cs, st);
    proof { lemma_dash_end(b@, 0); }
    let mut d: usize = 0;
    while d < b.len() && b[d] == '-'
        invariant
            d <= b@.len(),
            dash_end(b@, d as int) == dash_end(b@, 0),
        decreases b@.len() - d,
    {
        d = d + 1;
    }
    if d >= b.len() {
        None
    } else {
        let rest = chars_from(&b, d);
        proof { assert(rest@ =~= b@.skip(d as int)); }
        Some(string_from_chars(&rest))
    }
}

/// The last component of a title path, or `/` where it ends in one.
pub open spec fn title_base_spec(s: Seq<char>) -> Seq<char> {
    let b = base_name(s);
    if b.len() == 0 { seq!['/'] } else { b }
}

/// The last component of a title path, or `/` where it ends in one.
pub fn title_base(title: &str) -> (r: String)
    ensures
        r@ == title_base_spec(title@),
{
    let cs = str_chars(title);
    let st = last_component(&cs);
    let b = chars_from(&cs, st);
    if b.len() == 0 {
        let v = vec!['/'];
        string_from_chars(&v)
    } else {
        string_from_chars(&b)
    }
}

} // verus!

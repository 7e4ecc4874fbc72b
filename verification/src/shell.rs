//! The environment the shell is started with.
use vstd::prelude::*;

use crate::input::str_chars;
use crate::names::{base_name, last_component, chars_from};
use crate::vt::string_from_chars;

verus! {

/// The names of the variables set anew.
pub open spec fn term_name() -> Seq<char> {
    seq!['T', 'E', 'R', 'M']
}

pub open spec fn colorterm_name() -> Seq<char> {
    seq!['C', 'O', 'L', 'O', 'R', 'T', 'E', 'R', 'M']
}

pub open spec fn termcap_name() -> Seq<char> {
    seq!['T', 'E', 'R', 'M', 'C', 'A', 'P']
}

pub open spec fn lang_name() -> Seq<char> {
    seq!['L', 'A', 'N', 'G']
}

/// The prefix of the dynamic loader's variables, which could inject code into the shell.
pub open spec fn dyld_prefix() -> Seq<char> {
    seq!['D', 'Y', 'L', 'D', '_']
}

/// The prefix of this program's own variables.
pub open spec fn trm_prefix() -> Seq<char> {
    seq!['T', 'R', 'M', '_']
}

/// Whether a variable named `k` is passed on to the shell: not `TERM`, `COLORTERM` or
/// `TERMCAP`, which are set anew, and none whose name starts with `DYLD_` or `TRM_`.
pub open spec fn keep_spec(k: Seq<char>) -> bool {
    &&& k != term_name()
    &&& k != colorterm_name()
    &&& k != termcap_name()
    &&& !dyld_prefix().is_prefix_of(k)
    &&& !trm_prefix().is_prefix_of(k)
}

/// `name=value`.
pub open spec fn entry(k: Seq<char>, v: Seq<char>) -> Seq<char> {
    k + seq!['='] + v
}

/// Name and value pairs, as characters.
pub open spec fn vars_view(vars: Seq<(String, String)>) -> Seq<(Seq<char>, Seq<char>)> {
    Seq::new(vars.len(), |i: int| (vars[i].0@, vars[i].1@))
}

/// The entries kept of `vars`, in order.
pub open spec fn kept(vars: Seq<(Seq<char>, Seq<char>)>) -> Seq<Seq<char>>
    decreases vars.len(),
{
    if vars.len() == 0 {
        Seq::empty()
    } else {
        let rest = kept(vars.drop_last());
        let (k, v) = vars.last();
        if keep_spec(k) { rest.push(entry(k, v)) } else { rest }
    }
}

/// The environment of the shell: the variables kept, then `TERM=xterm-256color`,
/// `COLORTERM=truecolor`, and `LANG=en_US.UTF-8` where `LANG` is not set.
pub open spec fn child_env_spec(vars: Seq<(Seq<char>, Seq<char>)>) -> Seq<Seq<char>> {
    let base = kept(vars).push(entry(term_name(), seq!['x', 't', 'e', 'r', 'm', '-', '2', '5', '6', 'c', 'o', 'l', 'o', 'r']))
        .push(entry(colorterm_name(), seq!['t', 'r', 'u', 'e', 'c', 'o', 'l', 'o', 'r']));
    if exists|i: int| 0 <= i < vars.len() && #[trigger] vars[i].0 == lang_name() {
        base
    } else {
        base.push(entry(lang_name(), seq!['e', 'n', '_', 'U', 'S', '.', 'U', 'T', 'F', '-', '8']))
    }
}

/// Whether `p` starts `s`.
fn starts_with(s: &Vec<char>, p: &Vec<char>) -> (b: bool)
    ensures
        b == p@.is_prefix_of(s@),
{
    if p.len() > s.len() {
        return false;
    }
    let mut i: usize = 0;
    while i < p.len()
        invariant
            p@.len() <= s@.len(),
            i <= p@.len(),
            forall|j: int| 0 <= j < i ==> p@[j] == s@[j],
        decreases p@.len() - i,
    {
        if p[i] != s[i] {
            proof { assert(!p@.is_prefix_of(s@)) by { assert(s@.take(p@.len() as int)[i as int] == s@[i as int]); } }
            return false;
        }
        i = i + 1;
    }
    proof { assert(s@.take(p@.len() as int) =~= p@); }
    true
}

fn same_chars(a: &Vec<char>, b: &Vec<char>) -> (r: bool)
    ensures
        r == (a@ == b@),
{
    if a.len() != b.len() {
        return false;
    }
    let mut i: usize = 0;
    while i < a.len()
        invariant
            a@.len() == b@.len(),
            i <= a@.len(),
            forall|j: int| 0 <= j < i ==> a@[j] == b@[j],
        decreases a@.len() - i,
    {
        if a[i] != b[i] {
            return false;
        }
        i = i + 1;
    }
    proof { assert(a@ =~= b@); }
    true
}

/// Whether a variable named `k` is passed on to the shell.
pub fn keep_var(k: &str) -> (b: bool)
    ensures
        b == keep_spec(k@),
{
    let ks = str_chars(k);
    let term = vec!['T', 'E', 'R', 'M'];
    let colorterm = vec!['C', 'O', 'L', 'O', 'R', 'T', 'E', 'R', 'M'];
    let termcap = vec!['T', 'E', 'R', 'M', 'C', 'A', 'P'];
    let dyld = vec!['D', 'Y', 'L', 'D', '_'];
    let trm = vec!['T', 'R', 'M', '_'];
    proof {
        assert(term@ =~= term_name());
        assert(colorterm@ =~= colorterm_name());
        assert(termcap@ =~= termcap_name());
        assert(dyld@ =~= dyld_prefix());
        assert(trm@ =~= trm_prefix());
    }
    !same_chars(&ks, &term) && !same_chars(&ks, &colorterm) && !same_chars(&ks, &termcap) && !starts_with(&ks, &dyld)
        && !starts_with(&ks, &trm)
}

fn entry_of(k: &Vec<char>, v: &Vec<char>) -> (r: String)
    ensures
        r@ == entry(k@, v@),
{
    let mut e: Vec<char> = Vec::new();
    let mut i: usize = 0;
    while i < k.len()
        invariant
            i <= k@.len(),
            e@ == k@.take(i as int),
        decreases k@.len() - i,
    {
        e.push(k[i]);
        i = i + 1;
        proof { assert(e@ =~= k@.take(i as int)); }
    }
    e.push('=');
    let mut j: usize = 0;
    while j < v.len()
        invariant
            j <= v@.len(),
            e@ == k@ + seq!['='] + v@.take(j as int),
        decreases v@.len() - j,
    {
        e.push(v[j]);
        j = j + 1;
        proof { assert(e@ =~= k@ + seq!['='] + v@.take(j as int)); }
    }
    proof {
        assert(k@.take(k@.len() as int) =~= k@);
        assert(v@.take(v@.len() as int) =~= v@);
    }
    string_from_chars(&e)
}

/// The environment of the shell, as `name=value` entries, from the variables `vars`
/// (name, value) of this process.
pub fn child_env(vars: &[(String, String)]) -> (r: Vec<String>)
    ensures
        strings_of(r@) == child_env_spec(vars_view(vars@)),
{
    let ghost vv = vars_view(vars@);
    let mut out: Vec<String> = Vec::new();
    let mut has_lang = false;
    let lang = vec!['L', 'A', 'N', 'G'];
    proof { assert(lang@ =~= lang_name()); }
    let mut i: usize = 0;
    while i < vars.len()
        invariant
            i <= vars@.len(),
            vv == vars_view(vars@),
            lang@ == lang_name(),
            strings_of(out@) == kept(vv.take(i as int)),
            has_lang == exists|j: int| 0 <= j < i && #[trigger] vv[j].0 == lang_name(),
        decreases vars@.len() - i,
    {
        let k = str_chars(&vars[i].0);
        let v = str_chars(vars[i].1.as_str());
        proof {
            assert(vv.take(i + 1).drop_last() =~= vv.take(i as int));
            assert(vv.take(i + 1).last() == (k@, v@));
        }
        proof { assert(vv[i as int].0 == k@); }
        if same_chars(&k, &lang) {
            has_lang = true;
            proof { assert(vv[i as int].0 == lang_name()); }
        }
        let ghost o0 = out@;
        if keep_var(&vars[i].0) {
            let e = entry_of(&k, &v);
            out.push(e);
            proof { assert(strings_of(out@) =~= strings_of(o0).push(e@)); }
        }
        i = i + 1;
    }
    proof { assert(vv.take(vars@.len() as int) =~= vv); }
    let ghost o1 = out@;
    let term = vec!['T', 'E', 'R', 'M'];
    let tv = vec!['x', 't', 'e', 'r', 'm', '-', '2', '5', '6', 'c', 'o', 'l', 'o', 'r'];
    let e1 = entry_of(&term, &tv);
    out.push(e1);
    let colorterm = vec!['C', 'O', 'L', 'O', 'R', 'T', 'E', 'R', 'M'];
    let cv = vec!['t', 'r', 'u', 'e', 'c', 'o', 'l', 'o', 'r'];
    let e2 = entry_of(&colorterm, &cv);
    out.push(e2);
    proof {
        assert(term@ =~= term_name());
        assert(colorterm@ =~= colorterm_name());
        assert(tv@ =~= seq!['x', 't', 'e', 'r', 'm', '-', '2', '5', '6', 'c', 'o', 'l', 'o', 'r']);
        assert(cv@ =~= seq!['t', 'r', 'u', 'e', 'c', 'o', 'l', 'o', 'r']);
        assert(strings_of(out@) =~= strings_of(o1).push(e1@).push(e2@));
    }
    if !has_lang {
        let lv = vec!['e', 'n', '_', 'U', 'S', '.', 'U', 'T', 'F', '-', '8'];
        let ghost o2 = out@;
        let e3 = entry_of(&lang, &lv);
        out.push(e3);
        proof {
            assert(lv@ =~= seq!['e', 'n', '_', 'U', 'S', '.', 'U', 'T', 'F', '-', '8']);
            assert(strings_of(out@) =~= strings_of(o2).push(e3@));
        }
    }
    out
}

/// The characters of each string of `v`.
pub open spec fn strings_of(v: Seq<String>) -> Seq<Seq<char>> {
    Seq::new(v.len(), |i: int| v[i]@)
}

proof fn lemma_kept_safe(vars: Seq<(Seq<char>, Seq<char>)>)
    ensures
        forall|i: int| 0 <= i < kept(vars).len() ==> exists|j: int| 0 <= j < vars.len() && keep_spec(vars[j].0) && #[trigger] kept(vars)[i] == entry(vars[j].0, vars[j].1),
    decreases vars.len(),
{
    if vars.len() > 0 {
        let d = vars.drop_last();
        lemma_kept_safe(d);
        let rest = kept(d);
        assert forall|i: int| 0 <= i < kept(vars).len() implies exists|j: int| 0 <= j < vars.len() && keep_spec(vars[j].0) && #[trigger] kept(vars)[i] == entry(vars[j].0, vars[j].1) by {
            if i < rest.len() {
                assert(kept(vars)[i] == rest[i]);
                let j = choose|j: int| 0 <= j < d.len() && keep_spec(d[j].0) && rest[i] == entry(d[j].0, d[j].1);
                assert(vars[j] == d[j]);
            } else {
                let j = vars.len() - 1;
                assert(vars[j] == vars.last());
            }
        }
    }
}

/// No variable of the dynamic loader reaches the shell: every entry of its environment is
/// one of this process's variables whose name is kept, or one of the three set anew.
pub proof fn no_loader_variables(vars: Seq<(Seq<char>, Seq<char>)>)
    ensures
        forall|i: int| 0 <= i < child_env_spec(vars).len() ==> {
            let e = #[trigger] child_env_spec(vars)[i];
            ||| exists|j: int| 0 <= j < vars.len() && keep_spec(vars[j].0) && e == entry(vars[j].0, vars[j].1)
            ||| e.take(5) == seq!['T', 'E', 'R', 'M', '=']
            ||| e.take(10) == seq!['C', 'O', 'L', 'O', 'R', 'T', 'E', 'R', 'M', '=']
            ||| e.take(5) == seq!['L', 'A', 'N', 'G', '=']
        },
{
    lemma_kept_safe(vars);
    let k = kept(vars);
    let env = child_env_spec(vars);
    assert forall|i: int| 0 <= i < env.len() implies {
        let e = #[trigger] env[i];
        ||| exists|j: int| 0 <= j < vars.len() && keep_spec(vars[j].0) && e == entry(vars[j].0, vars[j].1)
        ||| e.take(5) == seq!['T', 'E', 'R', 'M', '=']
        ||| e.take(10) == seq!['C', 'O', 'L', 'O', 'R', 'T', 'E', 'R', 'M', '=']
        ||| e.take(5) == seq!['L', 'A', 'N', 'G', '=']
    } by {
        if i < k.len() {
            assert(env[i] == k[i]);
        } else if i == k.len() {
            assert(env[i].take(5) =~= seq!['T', 'E', 'R', 'M', '=']);
        } else if i == k.len() + 1 {
            assert(env[i].take(10) =~= seq!['C', 'O', 'L', 'O', 'R', 'T', 'E', 'R', 'M', '=']);
        } else {
            assert(env[i].take(5) =~= seq!['L', 'A', 'N', 'G', '=']);
        }
    }
}

/// The name a login shell is started under: its file name after a `-`.
pub fn login_arg0(shell: &str) -> (r: String)
    ensures
        r@ == seq!['-'] + base_name(shell@),
{
    let cs = str_chars(shell);
    let st = last_component(&cs);
    let b = chars_from(&cs, st);
    let mut out: Vec<char> = vec!['-'];
    let mut i: usize = 0;
    while i < b.len()
        invariant
            i <= b@.len(),
            out@ == seq!['-'] + b@.take(i as int),
        decreases b@.len() - i,
    {
        out.push(b[i]);
        i = i + 1;
        proof { assert(out@ =~= seq!['-'] + b@.take(i as int)); }
    }
    proof { assert(b@.take(b@.len() as int) =~= b@); }
    string_from_chars(&out)
}

} // verus!

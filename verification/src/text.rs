use vstd::prelude::*;

verus! {

/// ASCII decimal digits of `n`, most significant first, without leading zeros.
pub open spec fn dec(n: nat) -> Seq<u8>
    decreases n,
{
    if n < 10 {
        seq![(48 + n) as u8]
    } else {
        dec(n / 10).push((48 + n % 10) as u8)
    }
}

/// Appends the decimal digits of `n` to `out`.
pub fn push_dec(out: &mut Vec<u8>, n: u64)
    ensures
        final(out)@ == old(out)@ + dec(n as nat),
    decreases n,
{
    if n < 10 {
        out.push((48 + n) as u8);
        assert(old(out)@ + dec(n as nat) =~= old(out)@.push((48 + n) as u8));
    } else {
        push_dec(out, n / 10);
        let ghost mid = out@;
        out.push((48 + n % 10) as u8);
        assert(old(out)@ + dec(n as nat) =~= mid.push((48 + n % 10) as u8));
    }
}

/// Appends every byte of `s` to `out`.
pub fn push_all(out: &mut Vec<u8>, s: &[u8])
    ensures
        final(out)@ == old(out)@ + s@,
{
    let mut i: usize = 0;
    while i < s.len()
        invariant
            i <= s.len(),
            out@ == old(out)@ + s@.take(i as int),
        decreases s.len() - i,
    {
        out.push(s[i]);
        i = i + 1;
        assert(old(out)@ + s@.take(i as int) =~= (old(out)@ + s@.take(i - 1)).push(s@[i - 1]));
    }
    assert(s@.take(s@.len() as int) =~= s@);
}

/// ASCII decimal digits of `n`, with a leading minus sign when it is negative.
pub open spec fn sdec(n: int) -> Seq<u8> {
    if n < 0 { seq![45u8] + dec((-n) as nat) } else { dec(n as nat) }
}

/// Appends the decimal digits of `n`, with its sign, to `out`.
pub fn push_sdec(out: &mut Vec<u8>, n: i64)
    ensures
        final(out)@ == old(out)@ + sdec(n as int),
{
    if n < 0 {
        out.push(45);
        let m: u64 = if n == i64::MIN { 0x8000_0000_0000_0000 } else { (-n) as u64 };
        let ghost mid = out@;
        push_dec(out, m);
        assert(old(out)@ + sdec(n as int) =~= mid + dec(m as nat));
    } else {
        push_dec(out, n as u64);
    }
}

} // verus!

//! Byte-level building blocks of the command encoding.

use vstd::prelude::*;

verus! {

/// The `n` low-order bytes of `x`, least significant byte first.
pub open spec fn le_bytes(x: nat, n: nat) -> Seq<u8>
    decreases n,
{
    if n == 0 {
        Seq::empty()
    } else {
        seq![(x % 256) as u8] + le_bytes(x / 256, (n - 1) as nat)
    }
}

/// The number whose bytes, least significant first, are `s`.
pub open spec fn le_value(s: Seq<u8>) -> nat
    decreases s.len(),
{
    if s.len() == 0 {
        0
    } else {
        s[0] as nat + 256 * le_value(s.drop_first())
    }
}

/// 256 to the power `n`: how many values `n` bytes can hold.
pub open spec fn byte_span(n: nat) -> nat
    decreases n,
{
    if n == 0 {
        1
    } else {
        256 * byte_span((n - 1) as nat)
    }
}

/// `n` bytes stand for a number of `n` bytes, and give it back unless it is too
/// large for them.
pub proof fn le_bytes_round_trip(x: nat, n: nat)
    ensures
        le_bytes(x, n).len() == n,
        x < byte_span(n) ==> le_value(le_bytes(x, n)) == x,
    decreases n,
{
    if n > 0 {
        le_bytes_round_trip(x / 256, (n - 1) as nat);
        let s = le_bytes(x, n);
        assert(s.drop_first() =~= le_bytes(x / 256, (n - 1) as nat));
    }
}

/// Appends `b` to `w`.
pub fn write(w: &mut Vec<u8>, b: &[u8])
    ensures
        final(w)@ == old(w)@ + b@,
{
    let ghost before: Seq<u8> = w@;
    w.extend_from_slice(b);
    assert(w@ =~= before + b@);
}

/// Appends a single byte to `w`.
pub fn write_byte(w: &mut Vec<u8>, b: u8)
    ensures
        final(w)@ == old(w)@ + seq![b],
{
    w.push(b);
    assert(w@ =~= old(w)@ + seq![b]);
}

/// Appends the `n` low-order bytes of `x` to `w`, least significant first.
pub fn write_le(w: &mut Vec<u8>, x: u64, n: usize)
    ensures
        final(w)@ == old(w)@ + le_bytes(x as nat, n as nat),
{
    let mut rest: u64 = x;
    let mut left: usize = n;
    let ghost before: Seq<u8> = w@;
    assert(w@ + le_bytes(rest as nat, left as nat) =~= before + le_bytes(x as nat, n as nat));
    while left > 0
        invariant
            w@ + le_bytes(rest as nat, left as nat) == before + le_bytes(x as nat, n as nat),
        decreases left,
    {
        let ghost prefix: Seq<u8> = w@;
        let low: u8 = (rest % 256) as u8;
        w.push(low);
        proof {
            assert(w@ + le_bytes((rest / 256) as nat, (left - 1) as nat)
                =~= prefix + le_bytes(rest as nat, left as nat));
        }
        rest = rest / 256;
        left = left - 1;
    }
    assert(w@ + le_bytes(rest as nat, 0) =~= w@);
}

/// Whether two 32-byte values are the same.
pub fn same_bytes(a: &[u8; 32], b: &[u8; 32]) -> (same: bool)
    ensures
        same == (a@ == b@),
        same == (*a == *b),
{
    let mut i: usize = 0;
    while i < 32
        invariant
            i <= 32,
            forall|k: int| 0 <= k < i ==> a@[k] == b@[k],
        decreases 32 - i,
    {
        if a[i] != b[i] {
            assert(a@[i as int] != b@[i as int]);
            return false;
        }
        i = i + 1;
    }
    assert(a@ =~= b@);
    assert(*a =~= *b);
    true
}

/// Each byte of a number is its digit to the base 256, the least significant first.
pub proof fn bytes_are_digits(x: nat, n: nat, i: int)
    requires
        0 <= i < n,
    ensures
        le_bytes(x, n).len() == n,
        le_bytes(x, n)[i] == (x as int / vstd::arithmetic::power::pow(256, i as nat)) % 256,
    decreases n,
{
    le_bytes_round_trip(x, n);
    vstd::arithmetic::power::lemma_pow0(256);
    if i > 0 {
        bytes_are_digits(x / 256, (n - 1) as nat, i - 1);
        let span = vstd::arithmetic::power::pow(256, (i - 1) as nat);
        vstd::arithmetic::power::lemma_pow_positive(256, (i - 1) as nat);
        reveal(vstd::arithmetic::power::pow);
        assert(vstd::arithmetic::power::pow(256, i as nat) == 256 * span);
        vstd::arithmetic::div_mod::lemma_div_denominator(x as int, 256, span);
        assert(le_bytes(x, n)[i] == le_bytes(x / 256, (n - 1) as nat)[i - 1]);
    }
}

} // verus!

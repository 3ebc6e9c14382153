//! Byte-sequence helpers shared by the wire codec and the registry:
//! equality, copying, decimal rendering of integers, and appending the
//! bytes of ASCII string literals.

use vstd::prelude::*;

verus! {

use vstd::string::StringSliceAdditionalSpecFns;

/// True exactly when the two slices hold the same bytes.
pub fn bytes_eq(a: &[u8], b: &[u8]) -> (r: bool)
    ensures
        r <==> a@ == b@,
{
    if a.len() != b.len() {
        assert(a@.len() != b@.len());
        return false;
    }
    let mut i: usize = 0;
    while i < a.len()
        invariant
            i <= a.len(),
            a.len() == b.len(),
            forall|j: int| 0 <= j < i ==> a@[j] == b@[j],
        decreases a.len() - i,
    {
        if a[i] != b[i] {
            assert(a@ != b@);
            return false;
        }
        i += 1;
    }
    assert(a@ =~= b@);
    true
}

/// A fresh vector holding the same bytes as the argument.
pub fn copy_bytes(v: &Vec<u8>) -> (r: Vec<u8>)
    ensures
        r@ == v@,
{
    let mut out: Vec<u8> = Vec::new();
    let mut i: usize = 0;
    while i < v.len()
        invariant
            i <= v.len(),
            out@ =~= v@.subrange(0, i as int),
        decreases v.len() - i,
    {
        out.push(v[i]);
        i += 1;
    }
    assert(out@ =~= v@);
    out
}

/// Appends the UTF-8 bytes of a string slice, such as a wire-format
/// literal, to `out`.
pub fn push_str_bytes(out: &mut Vec<u8>, s: &str)
    ensures
        final(out)@ == old(out)@ + s.spec_bytes(),
{
    let b = s.as_bytes();
    let mut i: usize = 0;
    while i < b.len()
        invariant
            i <= b.len(),
            b@ == s.spec_bytes(),
            out@ =~= old(out)@ + b@.subrange(0, i as int),
        decreases b.len() - i,
    {
        out.push(b[i]);
        i += 1;
    }
    assert(out@ =~= old(out)@ + b@);
}

/// The decimal rendering of `n`, most significant digit first, as bytes.
pub open spec fn dec_of(n: nat) -> Seq<u8>
    decreases n,
{
    if n < 10 {
        seq![(48 + n) as u8]
    } else {
        dec_of(n / 10).push((48 + n % 10) as u8)
    }
}

/// Appends the decimal rendering of `n` to `out`.
pub fn push_dec(out: &mut Vec<u8>, n: u32)
    ensures
        final(out)@ == old(out)@ + dec_of(n as nat),
    decreases n,
{
    if n < 10 {
        out.push(48 + n as u8);
        assert(out@ =~= old(out)@ + dec_of(n as nat));
    } else {
        push_dec(out, n / 10);
        out.push(48 + (n % 10) as u8);
        assert(out@ =~= old(out)@ + dec_of(n as nat));
    }
}


/// Bytes below 128 form valid UTF-8: each is a one-byte scalar.
pub proof fn lemma_ascii_bytes_valid(s: Seq<u8>)
    requires
        forall|i: int| 0 <= i < s.len() ==> s[i] < 128,
    ensures
        vstd::utf8::valid_utf8(s),
    decreases s.len(),
{
    if s.len() > 0 {
        assert(vstd::utf8::is_leading_byte_width_1(s[0]));
        assert(vstd::utf8::valid_first_scalar(s));
        assert(vstd::utf8::length_of_first_scalar(s) == 1);
        assert(vstd::utf8::pop_first_scalar(s) =~= s.drop_first());
        lemma_ascii_bytes_valid(s.drop_first());
    }
}

} // verus!

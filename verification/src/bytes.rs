//! Signed integers as their two's complement bits, and the comparison of
//! byte strings.

use vstd::prelude::*;

verus! {

/// The unsigned number with the same 32 bits as `x` in two's complement.
pub open spec fn i32_bits(x: i32) -> u32 {
    if x >= 0 {
        x as u32
    } else {
        (x + 0x1_0000_0000) as u32
    }
}

/// The signed number with the same 32 bits as `x` in two's complement.
pub open spec fn bits_i32(x: u32) -> i32 {
    if x < 0x8000_0000 {
        x as i32
    } else {
        (x - 0x1_0000_0000) as i32
    }
}

/// The unsigned number with the same 64 bits as `x` in two's complement.
pub open spec fn i64_bits(x: i64) -> u64 {
    if x >= 0 {
        x as u64
    } else {
        (x + 0x1_0000_0000_0000_0000) as u64
    }
}

/// The signed number with the same 64 bits as `x` in two's complement.
pub open spec fn bits_i64(x: u64) -> i64 {
    if x < 0x8000_0000_0000_0000 {
        x as i64
    } else {
        (x - 0x1_0000_0000_0000_0000) as i64
    }
}

/// Two's complement loses nothing, in either direction.
pub proof fn lemma_signed_bits(a: i32, b: u32, c: i64, d: u64)
    ensures
        bits_i32(i32_bits(a)) == a,
        i32_bits(bits_i32(b)) == b,
        bits_i64(i64_bits(c)) == c,
        i64_bits(bits_i64(d)) == d,
{
}

/// The 32 bits of `x` as an unsigned number.
pub fn i32_to_bits(x: i32) -> (r: u32)
    ensures
        r == i32_bits(x),
{
    if x >= 0 {
        x as u32
    } else {
        (x - i32::MIN) as u32 + 0x8000_0000u32
    }
}

/// The signed number that the 32 bits of `x` stand for.
pub fn i32_from_bits(x: u32) -> (r: i32)
    ensures
        r == bits_i32(x),
{
    if x < 0x8000_0000u32 {
        x as i32
    } else {
        (x - 0x8000_0000u32) as i32 + i32::MIN
    }
}

/// The 64 bits of `x` as an unsigned number.
pub fn i64_to_bits(x: i64) -> (r: u64)
    ensures
        r == i64_bits(x),
{
    if x >= 0 {
        x as u64
    } else {
        (x - i64::MIN) as u64 + 0x8000_0000_0000_0000u64
    }
}

/// The signed number that the 64 bits of `x` stand for.
pub fn i64_from_bits(x: u64) -> (r: i64)
    ensures
        r == bits_i64(x),
{
    if x < 0x8000_0000_0000_0000u64 {
        x as i64
    } else {
        (x - 0x8000_0000_0000_0000u64) as i64 + i64::MIN
    }
}

/// The array that holds the bytes of `s`, which has as many as the array.
pub open spec fn array_of<const N: usize>(s: Seq<u8>) -> [u8; N] {
    choose|a: [u8; N]| a@ == s
}

/// Copies `N` bytes into an array.
pub fn to_array<const N: usize>(s: &[u8]) -> (a: [u8; N])
    requires
        s@.len() == N,
    ensures
        a@ == s@,
        a == array_of::<N>(s@),
{
    let mut a: [u8; N] = [0u8; N];
    let mut i: usize = 0;
    while i < N
        invariant
            0 <= i <= N,
            s@.len() == N,
            forall|j: int| 0 <= j < i ==> a@[j] == s@[j],
        decreases N - i,
    {
        a[i] = s[i];
        i += 1;
    }
    assert(a@ =~= s@);
    assert(a =~= array_of::<N>(s@));
    a
}

/// Appends `data` to `out`.
pub fn append(out: &mut Vec<u8>, data: &[u8])
    ensures
        final(out)@ == old(out)@ + data@,
{
    out.extend_from_slice(data);
    assert(out@ =~= old(out)@ + data@);
}

/// Whether two byte strings are the same, looking at every byte whether or
/// not an earlier one differed.
pub fn bytes_equal(a: &[u8], b: &[u8]) -> (same: bool)
    ensures
        same == (a@ == b@),
{
    if a.len() != b.len() {
        return false;
    }
    let mut same = true;
    let mut i: usize = 0;
    assert(a@.take(0) =~= b@.take(0));
    while i < a.len()
        invariant
            a@.len() == b@.len(),
            0 <= i <= a@.len(),
            same == (a@.take(i as int) == b@.take(i as int)),
        decreases a@.len() - i,
    {
        proof {
            let n = i as int;
            assert(a@.take(n + 1) =~= a@.take(n).push(a@[n]));
            assert(b@.take(n + 1) =~= b@.take(n).push(b@[n]));
            if a@.take(n + 1) == b@.take(n + 1) {
                assert(a@.take(n) =~= a@.take(n + 1).take(n));
                assert(b@.take(n) =~= b@.take(n + 1).take(n));
                assert(a@[n] == a@.take(n + 1)[n]);
                assert(b@[n] == b@.take(n + 1)[n]);
            }
        }
        if a[i] != b[i] {
            same = false;
        }
        i += 1;
    }
    assert(a@.take(i as int) =~= a@);
    assert(b@.take(i as int) =~= b@);
    same
}

/// Overwrites a key of any length with zeros.
pub fn wipe_bytes(secret: &mut Vec<u8>)
    ensures
        final(secret)@.len() == old(secret)@.len(),
        forall|i: int| 0 <= i < final(secret)@.len() ==> final(secret)@[i] == 0,
    no_unwind
{
    let n: usize = secret.len();
    let mut i: usize = 0;
    while i < n
        invariant
            0 <= i <= n,
            n == secret@.len(),
            forall|j: int| 0 <= j < i ==> secret@[j] == 0,
        decreases n - i,
    {
        secret[i] = 0;
        i += 1;
    }
}

/// Overwrites a key with zeros.
pub fn wipe<const N: usize>(secret: &mut [u8; N])
    ensures
        forall|i: int| 0 <= i < N ==> final(secret)@[i] == 0,
{
    let mut i: usize = 0;
    while i < N
        invariant
            0 <= i <= N,
            forall|j: int| 0 <= j < i ==> secret@[j] == 0,
        decreases N - i,
    {
        secret[i] = 0;
        i += 1;
    }
}

} // verus!

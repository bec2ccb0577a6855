//! Big-endian byte encodings of 64-bit identifiers, and byte-string
//! comparison helpers used by the stores.

use vstd::prelude::*;

verus! {

/// The unsigned integer denoted by a big-endian byte string.
pub open spec fn be_u64(s: Seq<u8>) -> int
    decreases s.len(),
{
    if s.len() == 0 {
        0
    } else {
        be_u64(s.drop_last()) * 256 + s.last()
    }
}

/// The byte of `id` at big-endian position `i` (position 0 holds the most
/// significant byte of the eight).
pub open spec fn be_byte_of(id: u64, i: int) -> u8 {
    (id >> ((7 - i) * 8)) as u8
}

/// Big-endian encoding of a 64-bit identifier, as eight bytes.
pub fn u64_to_be_bytes(id: u64) -> (r: Vec<u8>)
    ensures
        r@.len() == 8,
        forall|i: int| 0 <= i < 8 ==> r@[i] == be_byte_of(id, i),
{
    let mut r: Vec<u8> = Vec::new();
    let mut i: usize = 0;
    while i < 8
        invariant
            i <= 8,
            r@.len() == i,
            forall|j: int| 0 <= j < i ==> r@[j] == be_byte_of(id, j),
        decreases 8 - i,
    {
        let shift: u64 = ((7 - i) * 8) as u64;
        let b: u8 = (id >> shift) as u8;
        assert(b == be_byte_of(id, i as int));
        r.push(b);
        i = i + 1;
    }
    r
}

/// Reads the first eight bytes of `s` as a big-endian 64-bit integer.
pub fn u64_from_be_bytes(s: &[u8]) -> (r: u64)
    requires
        s@.len() >= 8,
    ensures
        r == be_u64(s@.take(8)),
{
    let mut r: u64 = 0;
    let mut i: usize = 0;
    while i < 8
        invariant
            i <= 8,
            s@.len() >= 8,
            r == be_u64(s@.take(i as int)),
            r < pow256(i as nat),
        decreases 8 - i,
    {
        proof {
            lemma_be_u64_bound(s@.take(i as int));
            assert(s@.take(i + 1).drop_last() =~= s@.take(i as int));
            lemma_pow256_bounds();
            assert(pow256((i + 1) as nat) == 256 * pow256(i as nat));
            assert(r * 256 + 255 < pow256((i + 1) as nat)) by {
                assert(r + 1 <= pow256(i as nat));
                assert((r + 1) * 256 <= pow256(i as nat) * 256) by (nonlinear_arith)
                    requires
                        r + 1 <= pow256(i as nat),
                ;
            }
        }
        r = r * 256 + (s[i] as u64);
        i = i + 1;
    }
    r
}

/// 256 raised to the power `n`.
pub open spec fn pow256(n: nat) -> int
    decreases n,
{
    if n == 0 {
        1
    } else {
        256 * pow256((n - 1) as nat)
    }
}

proof fn lemma_pow256_bounds()
    ensures
        forall|n: nat| n <= 8 ==> #[trigger] pow256(n) <= 0x1_0000_0000_0000_0000,
{
    assert forall|n: nat| n <= 8 implies #[trigger] pow256(n) <= 0x1_0000_0000_0000_0000 by {
        reveal_with_fuel(pow256, 9);
        if n == 0 {
        } else if n == 1 {
        } else if n == 2 {
        } else if n == 3 {
        } else if n == 4 {
        } else if n == 5 {
        } else if n == 6 {
        } else if n == 7 {
        } else {
            assert(n == 8);
        }
    }
}

proof fn lemma_be_u64_bound(s: Seq<u8>)
    ensures
        0 <= be_u64(s) < pow256(s.len()),
    decreases s.len(),
{
    if s.len() == 0 {
    } else {
        lemma_be_u64_bound(s.drop_last());
    }
}

/// Two text strings are equal exactly when their characters agree.
pub fn str_eq(a: &str, b: &str) -> (r: bool)
    ensures
        r == (a@ == b@),
{
    let r = bytes_eq(a.as_bytes(), b.as_bytes());
    proof {
        if r {
            vstd::utf8::encode_utf8_decode_utf8(a@);
            vstd::utf8::encode_utf8_decode_utf8(b@);
        }
    }
    r
}

/// Two byte strings are equal exactly when their contents agree.
pub fn bytes_eq(a: &[u8], b: &[u8]) -> (r: bool)
    ensures
        r == (a@ == b@),
{
    if a.len() != b.len() {
        assert(a@.len() != b@.len());
        return false;
    }
    let n = a.len();
    let mut i: usize = 0;
    while i < n
        invariant
            n == a@.len(),
            n == b@.len(),
            i <= n,
            forall|j: int| 0 <= j < i ==> a@[j] == b@[j],
        decreases n - i,
    {
        if a[i] != b[i] {
            return false;
        }
        i = i + 1;
    }
    proof {
        assert(a@ =~= b@);
    }
    true
}

} // verus!

//! Lowercase hexadecimal rendering of digests and the reverse decoding
//! into raw bytes.

use vstd::prelude::*;

verus! {

/// The lowercase hexadecimal digit for a value below 16.
pub open spec fn hex_digit(n: u8) -> u8 {
    if n < 10 {
        (48 + n) as u8
    } else {
        (87 + n) as u8
    }
}

/// Lowercase hexadecimal rendering of a byte string, two digits per byte.
pub open spec fn hex_of(s: Seq<u8>) -> Seq<u8>
    decreases s.len(),
{
    if s.len() == 0 {
        Seq::empty()
    } else {
        hex_of(s.drop_last()) + seq![hex_digit(s.last() / 16), hex_digit(s.last() % 16)]
    }
}

/// Whether a byte is an ASCII hexadecimal digit.
pub open spec fn is_hex_digit(c: u8) -> bool {
    (48 <= c <= 57) || (97 <= c <= 102) || (65 <= c <= 70)
}

/// The value of an ASCII hexadecimal digit.
pub open spec fn nibble_of(c: u8) -> u8 {
    if c <= 57 {
        (c - 48) as u8
    } else if c >= 97 {
        (c - 87) as u8
    } else {
        (c - 55) as u8
    }
}

/// Whether a byte string is made of hexadecimal digit pairs.
pub open spec fn is_hex(s: Seq<u8>) -> bool {
    s.len() % 2 == 0 && forall|i: int| 0 <= i < s.len() ==> is_hex_digit(#[trigger] s[i])
}

/// The bytes a hexadecimal string stands for, two digits each.
pub open spec fn bin_of_hex(h: Seq<u8>) -> Seq<u8>
    decreases h.len(),
{
    if h.len() < 2 {
        Seq::empty()
    } else {
        bin_of_hex(h.take(h.len() - 2)).push(
            (nibble_of(h[h.len() - 2]) * 16 + nibble_of(h[h.len() - 1])) as u8,
        )
    }
}

/// A hexadecimal rendering is twice as long as its source and is made of
/// hexadecimal digits throughout.
pub proof fn lemma_hex_of_wf(s: Seq<u8>)
    ensures
        hex_of(s).len() == 2 * s.len(),
        is_hex(hex_of(s)),
    decreases s.len(),
{
    if s.len() != 0 {
        lemma_hex_of_wf(s.drop_last());
    }
}

/// Decoding a hexadecimal rendering gives the original bytes back.
pub proof fn lemma_bin_of_hex_of(s: Seq<u8>)
    ensures
        bin_of_hex(hex_of(s)) == s,
    decreases s.len(),
{
    if s.len() == 0 {
        assert(bin_of_hex(hex_of(s)) =~= s);
    } else {
        lemma_bin_of_hex_of(s.drop_last());
        lemma_hex_of_wf(s.drop_last());
        let h = hex_of(s);
        assert(h.take(h.len() - 2) =~= hex_of(s.drop_last()));
        assert(nibble_of(hex_digit(s.last() / 16)) == s.last() / 16);
        assert(nibble_of(hex_digit(s.last() % 16)) == s.last() % 16);
        assert(s.last() / 16 * 16 + s.last() % 16 == s.last()) by {
            assert(s.last() / 16 * 16 + s.last() % 16 == s.last()) by (nonlinear_arith);
        }
        assert(bin_of_hex(h) =~= s);
    }
}

/// Renders a byte string as lowercase hexadecimal digits.
pub fn to_hex(b: &[u8]) -> (r: Vec<u8>)
    ensures
        r@ == hex_of(b@),
{
    let mut out: Vec<u8> = Vec::new();
    let mut i: usize = 0;
    proof {
        assert(b@.subrange(0, 0) =~= Seq::<u8>::empty());
    }
    while i < b.len()
        invariant
            0 <= i <= b@.len(),
            out@ == hex_of(b@.subrange(0, i as int)),
        decreases b@.len() - i,
    {
        let x = b[i];
        let hi = if x / 16 < 10 { 48 + x / 16 } else { 87 + x / 16 };
        let lo = if x % 16 < 10 { 48 + x % 16 } else { 87 + x % 16 };
        out.push(hi);
        out.push(lo);
        proof {
            let p = b@.subrange(0, i + 1);
            assert(p.drop_last() =~= b@.subrange(0, i as int));
            assert(p.last() == b@[i as int]);
            assert(out@ =~= hex_of(p));
        }
        i += 1;
    }
    proof {
        assert(b@.subrange(0, b@.len() as int) =~= b@);
    }
    out
}

/// Decodes a string of hexadecimal digit pairs into raw bytes.
pub fn hex_to_bin(h: &[u8]) -> (r: Vec<u8>)
    requires
        is_hex(h@),
    ensures
        r@ == bin_of_hex(h@),
{
    let mut out: Vec<u8> = Vec::new();
    let mut i: usize = 0;
    proof {
        assert(h@.subrange(0, 0) =~= Seq::<u8>::empty());
    }
    while i + 1 < h.len()
        invariant
            is_hex(h@),
            i % 2 == 0,
            0 <= i <= h@.len(),
            out@ == bin_of_hex(h@.subrange(0, i as int)),
        decreases h@.len() - i,
    {
        let hi = nibble(h[i]);
        let lo = nibble(h[i + 1]);
        out.push(hi * 16 + lo);
        proof {
            let p = h@.subrange(0, i + 2);
            assert(p.take(p.len() - 2) =~= h@.subrange(0, i as int));
            assert(p[p.len() - 2] == h@[i as int] && p[p.len() - 1] == h@[i + 1]);
            assert(out@ =~= bin_of_hex(p));
        }
        i += 2;
    }
    proof {
        assert(i == h@.len());
        assert(h@.subrange(0, h@.len() as int) =~= h@);
    }
    out
}

/// The value of one hexadecimal digit byte.
fn nibble(c: u8) -> (r: u8)
    requires
        is_hex_digit(c),
    ensures
        r == nibble_of(c),
        r < 16,
{
    if c <= 57 {
        c - 48
    } else if c >= 97 {
        c - 87
    } else {
        c - 55
    }
}

} // verus!

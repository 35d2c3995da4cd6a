//! The object frame: `"<kind> <decimal payload length>"`, one NUL byte,
//! then the payload.  The digest of this frame is the object's key.

use vstd::prelude::*;

use crate::bytes::dec_of;
use crate::bytes::find_byte;
use crate::bytes::find_byte_in;
use crate::bytes::lemma_dec_of_digits;
use crate::bytes::lemma_find_byte_exact;
use crate::bytes::bytes_eq;
use crate::bytes::u64_to_dec;
use crate::digest::digest_of;
use crate::hex::hex_of;

verus! {

/// The three kinds of stored object.
#[derive(Clone, Copy, PartialEq, Eq, Structural, Debug)]
pub enum ObjectKind {
    Blob,
    Tree,
    Commit,
}

/// The ASCII label of an object kind.
pub open spec fn kind_bytes(k: ObjectKind) -> Seq<u8> {
    match k {
        ObjectKind::Blob => seq![98u8, 108u8, 111u8, 98u8],
        ObjectKind::Tree => seq![116u8, 114u8, 101u8, 101u8],
        ObjectKind::Commit => seq![99u8, 111u8, 109u8, 109u8, 105u8, 116u8],
    }
}

/// The kind a label stands for, if it is one of the three.
pub open spec fn kind_of_bytes(s: Seq<u8>) -> Option<ObjectKind> {
    if s == kind_bytes(ObjectKind::Blob) {
        Some(ObjectKind::Blob)
    } else if s == kind_bytes(ObjectKind::Tree) {
        Some(ObjectKind::Tree)
    } else if s == kind_bytes(ObjectKind::Commit) {
        Some(ObjectKind::Commit)
    } else {
        None
    }
}

/// The canonical frame of an object: kind label, one space, the payload
/// length in decimal ASCII, one NUL byte, then the payload itself.
pub open spec fn frame_of(k: ObjectKind, p: Seq<u8>) -> Seq<u8> {
    kind_bytes(k) + seq![32u8] + dec_of(p.len()) + seq![0u8] + p
}

/// The binary digest an object's frame hashes to.
pub open spec fn obj_key_bin(k: ObjectKind, p: Seq<u8>) -> Seq<u8> {
    digest_of(frame_of(k, p))
}

/// The key an object is stored under: the hexadecimal rendering of the
/// digest of its frame.
pub open spec fn obj_key_hex(k: ObjectKind, p: Seq<u8>) -> Seq<u8> {
    hex_of(obj_key_bin(k, p))
}

/// Reads a frame back: splits at the first NUL, splits the header at the
/// first space, and accepts only a known kind label and a declared length
/// that is exactly the decimal rendering of the payload's actual length.
pub open spec fn parse_frame(f: Seq<u8>) -> Option<(ObjectKind, Seq<u8>)> {
    match find_byte(f, 0) {
        None => None,
        Some(z) => {
            let header = f.subrange(0, z);
            let body = f.subrange(z + 1, f.len() as int);
            match find_byte(header, 32) {
                None => None,
                Some(sp) => {
                    let label = header.subrange(0, sp);
                    let declared = header.subrange(sp + 1, header.len() as int);
                    match kind_of_bytes(label) {
                        None => None,
                        Some(k) => if declared == dec_of(body.len()) {
                            Some((k, body))
                        } else {
                            None
                        },
                    }
                },
            }
        },
    }
}

/// Framing loses nothing: reading the canonical frame of any object gives
/// the kind and payload back exactly.
pub proof fn lemma_frame_round_trip(k: ObjectKind, p: Seq<u8>)
    ensures
        parse_frame(frame_of(k, p)) == Some((k, p)),
{
    let f = frame_of(k, p);
    let kl = kind_bytes(k).len() as int;
    let dl = dec_of(p.len()).len() as int;
    lemma_dec_of_digits(p.len());
    let z = kl + 1 + dl;
    assert(f[z] == 0);
    assert forall|j: int| 0 <= j < z implies f[j] != 0 by {
        if j < kl {
            assert(f[j] == kind_bytes(k)[j]);
        } else if j == kl {
            assert(f[j] == 32);
        } else {
            assert(f[j] == dec_of(p.len())[j - kl - 1]);
        }
    }
    lemma_find_byte_exact(f, 0, z);
    let header = f.subrange(0, z);
    let body = f.subrange(z + 1, f.len() as int);
    assert(header =~= kind_bytes(k) + seq![32u8] + dec_of(p.len()));
    assert(body =~= p);
    assert(header[kl] == 32);
    assert forall|j: int| 0 <= j < kl implies header[j] != 32 by {
        assert(header[j] == kind_bytes(k)[j]);
    }
    lemma_find_byte_exact(header, 32, kl);
    assert(header.subrange(0, kl) =~= kind_bytes(k));
    assert(header.subrange(kl + 1, header.len() as int) =~= dec_of(p.len()));
    assert(kind_of_bytes(kind_bytes(k)) == Some(k));
}

/// The executable label of an object kind.
pub fn kind_label(k: ObjectKind) -> (r: Vec<u8>)
    ensures
        r@ == kind_bytes(k),
{
    let mut v: Vec<u8> = Vec::new();
    match k {
        ObjectKind::Blob => {
            v.push(98);
            v.push(108);
            v.push(111);
            v.push(98);
        },
        ObjectKind::Tree => {
            v.push(116);
            v.push(114);
            v.push(101);
            v.push(101);
        },
        ObjectKind::Commit => {
            v.push(99);
            v.push(111);
            v.push(109);
            v.push(109);
            v.push(105);
            v.push(116);
        },
    }
    proof {
        assert(v@ =~= kind_bytes(k));
    }
    v
}

/// Builds the canonical frame of an object.
pub fn encode_frame(k: ObjectKind, payload: &[u8]) -> (r: Vec<u8>)
    ensures
        r@ == frame_of(k, payload@),
{
    let mut v = kind_label(k);
    v.push(32);
    let mut len_dec = u64_to_dec(payload.len() as u64);
    v.append(&mut len_dec);
    v.push(0);
    let mut body: Vec<u8> = vstd::slice::slice_to_vec(payload);
    v.append(&mut body);
    proof {
        assert(v@ =~= frame_of(k, payload@));
    }
    v
}

/// Splits raw object bytes at the first NUL into header and payload, or
/// yields nothing when no NUL byte is present.
pub fn split_header_body(raw: &[u8]) -> (r: Option<(Vec<u8>, Vec<u8>)>)
    ensures
        match find_byte(raw@, 0) {
            Some(i) => {
                &&& r matches Some(hb)
                &&& hb.0@ == raw@.subrange(0, i)
                &&& hb.1@ == raw@.subrange(i + 1, raw@.len() as int)
            },
            None => r is None,
        },
{
    match find_byte_in(raw, 0) {
        None => None,
        Some(i) => {
            let n = raw.len();
            proof {
                crate::bytes::lemma_find_byte(raw@, 0);
            }
            assert(i < n);
            let header = vstd::slice::slice_to_vec(vstd::slice::slice_subrange(raw, 0, i));
            let body = vstd::slice::slice_to_vec(vstd::slice::slice_subrange(raw, i + 1, n));
            Some((header, body))
        },
    }
}

/// Reads a frame back, executably; agrees with `parse_frame` exactly.
pub fn parse_frame_exec(f: &[u8]) -> (r: Option<(ObjectKind, Vec<u8>)>)
    ensures
        match parse_frame(f@) {
            Some(kp) => r matches Some(v) && v.0 == kp.0 && v.1@ == kp.1,
            None => r is None,
        },
{
    let split = split_header_body(f);
    match split {
        None => None,
        Some((header, body)) => {
            match find_byte_in(header.as_slice(), 32) {
                None => None,
                Some(sp) => {
                    let hn = header.len();
                    proof {
                        crate::bytes::lemma_find_byte(header@, 32);
                    }
                    assert(sp < hn);
                    let label = vstd::slice::slice_subrange(header.as_slice(), 0, sp);
                    let declared = vstd::slice::slice_subrange(header.as_slice(), sp + 1, hn);
                    let kind = if bytes_eq(label, kind_label(ObjectKind::Blob).as_slice()) {
                        Some(ObjectKind::Blob)
                    } else if bytes_eq(label, kind_label(ObjectKind::Tree).as_slice()) {
                        Some(ObjectKind::Tree)
                    } else if bytes_eq(label, kind_label(ObjectKind::Commit).as_slice()) {
                        Some(ObjectKind::Commit)
                    } else {
                        None
                    };
                    match kind {
                        None => None,
                        Some(k) => {
                            let expected = u64_to_dec(body.len() as u64);
                            if bytes_eq(declared, expected.as_slice()) {
                                Some((k, body))
                            } else {
                                None
                            }
                        },
                    }
                },
            }
        },
    }
}

} // verus!

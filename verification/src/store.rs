//! The object store: typed payloads framed, digested, compressed and kept
//! under the hexadecimal rendering of their frame's digest.  A write of a
//! key that is already present touches nothing, so identical content is
//! stored once.

use vstd::prelude::*;

use crate::bytes::bytes_eq;
use crate::codec::compress_of;
use crate::codec::zlib_compress;
use crate::codec::zlib_decompress;
use crate::digest::sha1_digest;
use crate::hex::lemma_hex_of_wf;
use crate::hex::to_hex;
use crate::object::encode_frame;
use crate::object::frame_of;
use crate::object::obj_key_hex;
use crate::object::parse_frame;
use crate::object::parse_frame_exec;
use crate::object::ObjectKind;

verus! {

/// How a store operation fails.
#[derive(Clone, Copy, PartialEq, Eq, Structural, Debug)]
pub enum StoreError {
    /// The key has no object behind it.
    ObjectNotFound,
    /// The stored bytes do not decompress to a well-formed frame.
    CorruptObject,
    /// The object exists but its kind is not the one the caller asked for.
    InvalidObjectKind,
    /// An underlying storage operation failed.
    IoFailure,
}

/// One stored object: its key (40 hexadecimal ASCII bytes) and the
/// compressed frame kept under that key.
pub struct StoredObject {
    /// The hexadecimal key.
    pub key: Vec<u8>,
    /// The compressed frame.
    pub data: Vec<u8>,
}

/// The object store.
pub struct Store {
    objects: Vec<StoredObject>,
}

/// What a write leaves behind: nothing new when the key is already
/// present, else the compressed frame under the object's key.
pub open spec fn write_model(
    m: Map<Seq<u8>, Seq<u8>>,
    k: ObjectKind,
    p: Seq<u8>,
) -> Map<Seq<u8>, Seq<u8>> {
    if m.contains_key(obj_key_hex(k, p)) {
        m
    } else {
        m.insert(obj_key_hex(k, p), compress_of(frame_of(k, p)))
    }
}

/// Writing the same kind and payload again changes nothing: at most one
/// physical object ever exists for one `(kind, payload)` pair.
pub proof fn lemma_write_idempotent(m: Map<Seq<u8>, Seq<u8>>, k: ObjectKind, p: Seq<u8>)
    ensures
        write_model(write_model(m, k, p), k, p) == write_model(m, k, p),
{
    assert(write_model(m, k, p).contains_key(obj_key_hex(k, p)));
}

/// A write never disturbs what is already stored.
pub proof fn lemma_write_preserves(m: Map<Seq<u8>, Seq<u8>>, k: ObjectKind, p: Seq<u8>, key: Seq<u8>)
    requires
        m.contains_key(key),
    ensures
        write_model(m, k, p).contains_key(key),
        write_model(m, k, p)[key] == m[key],
{
}

impl Store {
    /// The stored objects, in insertion order.
    pub closed spec fn objects_seq(&self) -> Seq<StoredObject> {
        self.objects@
    }

    /// No key occurs twice.
    pub closed spec fn wf(&self) -> bool {
        forall|i: int, j: int|
            0 <= i < j < self.objects@.len() ==> self.objects@[i].key@ != self.objects@[j].key@
    }

    /// The store's contents: a map from key to the compressed bytes kept
    /// under it.
    pub closed spec fn model(&self) -> Map<Seq<u8>, Seq<u8>> {
        Map::new(
            |k: Seq<u8>|
                exists|i: int| 0 <= i < self.objects@.len() && self.objects@[i].key@ == k,
            |k: Seq<u8>|
                self.objects@[choose|i: int|
                    0 <= i < self.objects@.len() && self.objects@[i].key@ == k].data@,
        )
    }

    /// How many physical objects the store holds.
    pub closed spec fn num_objects(&self) -> nat {
        self.objects@.len()
    }

    /// An empty store.
    pub fn new() -> (r: Store)
        ensures
            r.wf(),
            r.model() == Map::<Seq<u8>, Seq<u8>>::empty(),
            r.num_objects() == 0,
    {
        let r = Store { objects: Vec::new() };
        proof {
            assert(r.model() =~= Map::<Seq<u8>, Seq<u8>>::empty());
        }
        r
    }

    /// The number of physical objects held.
    pub fn object_count(&self) -> (r: usize)
        ensures
            r as nat == self.num_objects(),
    {
        self.objects.len()
    }

    /// Read-only access to the stored objects, in insertion order.
    pub fn objects(&self) -> (r: &Vec<StoredObject>)
        ensures
            r@ == self.objects_seq(),
    {
        &self.objects
    }

    /// The index holding a key, if any.
    fn find_index(&self, key: &[u8]) -> (r: Option<usize>)
        ensures
            match r {
                Some(i) => {
                    &&& 0 <= i < self.objects@.len()
                    &&& self.objects@[i as int].key@ == key@
                    &&& self.model().contains_key(key@)
                },
                None => !self.model().contains_key(key@),
            },
    {
        let mut i: usize = 0;
        while i < self.objects.len()
            invariant
                0 <= i <= self.objects@.len(),
                forall|j: int| 0 <= j < i ==> self.objects@[j].key@ != key@,
            decreases self.objects@.len() - i,
        {
            if bytes_eq(self.objects[i].key.as_slice(), key) {
                return Some(i);
            }
            i += 1;
        }
        None
    }

    /// The compressed bytes stored under a key, if any.
    fn lookup(&self, key: &[u8]) -> (r: Option<&Vec<u8>>)
        requires
            self.wf(),
        ensures
            match r {
                Some(d) => self.model().contains_key(key@) && d@ == self.model()[key@],
                None => !self.model().contains_key(key@),
            },
    {
        match self.find_index(key) {
            None => None,
            Some(i) => {
                proof {
                    let w = choose|j: int|
                        0 <= j < self.objects@.len() && self.objects@[j].key@ == key@;
                    assert(w == i as int);
                }
                Some(&self.objects[i].data)
            },
        }
    }

    /// Frames, digests and stores a typed payload, returning its key; when
    /// an object already sits under that key, stores nothing.
    pub fn write_object(&mut self, kind: ObjectKind, payload: &[u8]) -> (key: Vec<u8>)
        requires
            old(self).wf(),
        ensures
            final(self).wf(),
            key@ == obj_key_hex(kind, payload@),
            key@.len() == 40,
            final(self).model() == write_model(old(self).model(), kind, payload@),
            final(self).model().contains_key(key@),
            !old(self).model().contains_key(key@) ==> final(self).model()[key@] == compress_of(
                frame_of(kind, payload@),
            ),
            final(self).num_objects() == old(self).num_objects() + (
                if old(self).model().contains_key(obj_key_hex(kind, payload@)) {
                    0int
                } else {
                    1int
                }
            ),
    {
        let frame = encode_frame(kind, payload);
        let digest = sha1_digest(frame.as_slice());
        let key = to_hex(digest.as_slice());
        proof {
            assert(digest@ == crate::object::obj_key_bin(kind, payload@));
            lemma_hex_of_wf(crate::object::obj_key_bin(kind, payload@));
        }
        match self.find_index(key.as_slice()) {
            Some(i) => {
                proof {
                    let w = choose|j: int|
                        0 <= j < self.objects@.len() && self.objects@[j].key@ == key@;
                    assert(w == i as int);
                }
                key
            },
            None => {
                let data = zlib_compress(frame.as_slice());
                let key_copy = to_hex(digest.as_slice());
                let ghost pre = self.objects@;
                self.objects.push(StoredObject { key: key_copy, data });
                proof {
                    assert forall|a: int, b: int|
                        0 <= a < b < self.objects@.len() implies self.objects@[a].key@
                        != self.objects@[b].key@ by {
                        if b < pre.len() {
                        } else {
                            assert(self.objects@[b].key@ == key@);
                            assert(self.objects@[a] == pre[a]);
                        }
                    }
                    assert forall|k: Seq<u8>|
                        #[trigger] self.model().contains_key(k) <==> write_model(
                            old(self).model(),
                            kind,
                            payload@,
                        ).contains_key(k) by {
                        if k == key@ {
                            assert(self.objects@[pre.len() as int].key@ == k);
                        } else {
                            if exists|i: int|
                                0 <= i < self.objects@.len() && self.objects@[i].key@ == k {
                                let i = choose|i: int|
                                    0 <= i < self.objects@.len() && self.objects@[i].key@ == k;
                                assert(0 <= i < pre.len() && pre[i].key@ == k);
                            }
                            if old(self).model().contains_key(k) {
                                let j = choose|j: int| 0 <= j < pre.len() && pre[j].key@ == k;
                                assert(self.objects@[j].key@ == k);
                            }
                        }
                    }
                    assert forall|k: Seq<u8>| self.model().contains_key(k) implies self.model()[k]
                        == write_model(old(self).model(), kind, payload@)[k] by {
                        let i = choose|i: int|
                            0 <= i < self.objects@.len() && self.objects@[i].key@ == k;
                        if k == key@ {
                            assert(i == pre.len() as int);
                        } else {
                            assert(0 <= i < pre.len() && pre[i].key@ == k);
                            let w = choose|j: int| 0 <= j < pre.len() && pre[j].key@ == k;
                            assert(pre[w].key@ == k && self.objects@[w] == pre[w]);
                            assert(w == i);
                        }
                    }
                    assert(self.model() =~= write_model(old(self).model(), kind, payload@));
                }
                key
            },
        }
    }

    /// Retrieves an object by its key, decompresses it and reads its frame
    /// back into kind and payload.
    pub fn read_object(&self, key: &[u8]) -> (r: Result<(ObjectKind, Vec<u8>), StoreError>)
        requires
            self.wf(),
        ensures
            !self.model().contains_key(key@) ==> r == Err::<(ObjectKind, Vec<u8>), StoreError>(
                StoreError::ObjectNotFound,
            ),
            r is Ok ==> self.model().contains_key(key@),
            forall|orig: Seq<u8>|
                self.model().contains_key(key@) && self.model()[key@] == #[trigger] compress_of(
                    orig,
                ) ==> match parse_frame(orig) {
                    Some(kp) => r matches Ok(v) && v.0 == kp.0 && v.1@ == kp.1,
                    None => r == Err::<(ObjectKind, Vec<u8>), StoreError>(
                        StoreError::CorruptObject,
                    ),
                },
    {
        match self.lookup(key) {
            None => Err(StoreError::ObjectNotFound),
            Some(data) => {
                match zlib_decompress(data.as_slice()) {
                    Err(_) => Err(StoreError::CorruptObject),
                    Ok(frame) => {
                        match parse_frame_exec(frame.as_slice()) {
                            None => Err(StoreError::CorruptObject),
                            Some((kind, body)) => Ok((kind, body)),
                        }
                    },
                }
            },
        }
    }

    /// Places raw bytes directly under a key, as a collaborator with
    /// direct access to the underlying storage could; replaces whatever
    /// the key held.
    pub fn insert_raw(&mut self, key: Vec<u8>, data: Vec<u8>)
        requires
            old(self).wf(),
        ensures
            final(self).wf(),
            final(self).model() == old(self).model().insert(key@, data@),
    {
        let ghost gk = key@;
        let ghost gd = data@;
        match self.find_index(key.as_slice()) {
            Some(i) => {
                let ghost pre = self.objects@;
                self.objects.remove(i);
                self.objects.push(StoredObject { key, data });
                proof {
                    let cur = self.objects@;
                    let n = pre.len() as int;
                    assert(cur.len() == n);
                    assert forall|a: int, b: int| 0 <= a < b < cur.len() implies cur[a].key@
                        != cur[b].key@ by {
                        self.lemma_remove_push_frame(pre, i as int, gk, gd, a);
                        self.lemma_remove_push_frame(pre, i as int, gk, gd, b);
                    }
                    assert forall|k: Seq<u8>|
                        #[trigger] self.model().contains_key(k) == old(self).model().insert(
                            gk,
                            gd,
                        ).contains_key(k) by {
                        if exists|a: int| 0 <= a < cur.len() && cur[a].key@ == k {
                            let a = choose|a: int| 0 <= a < cur.len() && cur[a].key@ == k;
                            self.lemma_remove_push_frame(pre, i as int, gk, gd, a);
                            if a == n - 1 {
                                assert(pre[i as int].key@ == gk && gk == k);
                            }
                        }
                        if exists|a: int| 0 <= a < pre.len() && pre[a].key@ == k {
                            let a = choose|a: int| 0 <= a < pre.len() && pre[a].key@ == k;
                            if a == i {
                                assert(cur[n - 1].key@ == k);
                            } else if a < i {
                                self.lemma_remove_push_frame(pre, i as int, gk, gd, a);
                            } else {
                                self.lemma_remove_push_frame(pre, i as int, gk, gd, a - 1);
                            }
                        }
                    }
                    assert forall|k: Seq<u8>| self.model().contains_key(k) implies self.model()[k]
                        == old(self).model().insert(gk, gd)[k] by {
                        let a = choose|a: int| 0 <= a < cur.len() && cur[a].key@ == k;
                        self.lemma_remove_push_frame(pre, i as int, gk, gd, a);
                        if k == gk {
                            assert(cur[n - 1].key@ == gk);
                            assert(a == n - 1) by {
                                if a < n - 1 {
                                    self.lemma_remove_push_frame(pre, i as int, gk, gd, a);
                                    assert(pre[i as int].key@ == gk);
                                }
                            }
                        } else {
                            assert(a < n - 1);
                            let b = if a < i { a } else { a + 1 };
                            let w = choose|j: int| 0 <= j < pre.len() && pre[j].key@ == k;
                            assert(pre[b].key@ == k);
                            assert(w == b);
                        }
                    }
                    assert(self.model() =~= old(self).model().insert(gk, gd));
                }
            },
            None => {
                let ghost pre = self.objects@;
                self.objects.push(StoredObject { key, data });
                proof {
                    let cur = self.objects@;
                    let n = pre.len() as int;
                    assert forall|a: int, b: int| 0 <= a < b < cur.len() implies cur[a].key@
                        != cur[b].key@ by {
                        if b == n {
                            assert(cur[a] == pre[a]);
                        }
                    }
                    assert forall|k: Seq<u8>| self.model().contains_key(k) implies self.model()[k]
                        == old(self).model().insert(gk, gd)[k] by {
                        let a = choose|a: int| 0 <= a < cur.len() && cur[a].key@ == k;
                        if k == gk {
                            assert(a == n) by {
                                if a < n {
                                    assert(pre[a].key@ == gk);
                                }
                            }
                        } else {
                            assert(a < n && pre[a].key@ == k);
                            let w = choose|j: int| 0 <= j < pre.len() && pre[j].key@ == k;
                            assert(pre[w].key@ == k && cur[w] == pre[w]);
                            assert(w == a);
                        }
                    }
                    assert forall|k: Seq<u8>|
                        #[trigger] self.model().contains_key(k) == old(self).model().insert(
                            gk,
                            gd,
                        ).contains_key(k) by {
                        if k == gk {
                            assert(cur[n].key@ == gk);
                        } else {
                            if exists|a: int| 0 <= a < cur.len() && cur[a].key@ == k {
                                let a = choose|a: int| 0 <= a < cur.len() && cur[a].key@ == k;
                                assert(a < n && pre[a].key@ == k);
                            }
                            if old(self).model().contains_key(k) {
                                let j = choose|j: int| 0 <= j < pre.len() && pre[j].key@ == k;
                                assert(cur[j].key@ == k);
                            }
                        }
                    }
                    assert(self.model() =~= old(self).model().insert(gk, gd));
                }
            },
        }
    }

    /// After removing index `i` and pushing a new object, every index of
    /// the result maps back to an index of the original sequence.
    proof fn lemma_remove_push_frame(
        &self,
        pre: Seq<StoredObject>,
        i: int,
        gk: Seq<u8>,
        gd: Seq<u8>,
        a: int,
    )
        requires
            0 <= i < pre.len(),
            self.objects@.len() == pre.len(),
            0 <= a < self.objects@.len(),
            forall|b: int|
                0 <= b < pre.len() - 1 ==> #[trigger] self.objects@[b]
                    == pre.remove(i)[b],
            self.objects@[pre.len() - 1].key@ == gk,
            self.objects@[pre.len() - 1].data@ == gd,
        ensures
            a < pre.len() - 1 && a < i ==> self.objects@[a] == pre[a],
            a < pre.len() - 1 && a >= i ==> self.objects@[a] == pre[a + 1],
            a == pre.len() - 1 ==> self.objects@[a].key@ == gk && self.objects@[a].data@ == gd,
    {
        if a < pre.len() - 1 {
            assert(self.objects@[a] == pre.remove(i)[a]);
        }
    }
}

} // verus!

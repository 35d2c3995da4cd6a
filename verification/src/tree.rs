//! Directory snapshots composed into tree objects.
//!
//! A directory is handed in as plain data (`FsEntry` children holding
//! `FsNode`s); every regular file becomes a blob object, every directory
//! a tree object whose payload lists its eligible children sorted by
//! name, each entry as `"<mode> <name>"`, one NUL byte, then the child's
//! 20-byte binary digest.

use vstd::prelude::*;

use crate::bytes::bytes_leq;
use crate::bytes::find_byte;
use crate::bytes::find_byte_in;
use crate::bytes::lemma_find_byte;
use crate::bytes::lemma_find_byte_exact;
use crate::bytes::lemma_lex_leq_reflexive;
use crate::bytes::lemma_lex_leq_transitive;
use crate::bytes::lex_leq;
use crate::bytes::lemma_lex_leq_antisymmetric;
use crate::bytes::lemma_lex_leq_total;
use crate::bytes::push_all;
use crate::codec::compress_of;
use crate::hex::bin_of_hex;
use crate::hex::hex_of;
use crate::hex::hex_to_bin;
use crate::hex::lemma_bin_of_hex_of;
use crate::hex::lemma_hex_of_wf;
use crate::object::obj_key_bin;
use crate::object::obj_key_hex;
use crate::object::parse_frame;
use crate::object::ObjectKind;
use crate::store::Store;
use crate::store::StoreError;

verus! {

/// An in-memory picture of one filesystem node: a file's bytes, or a
/// directory's named children.
pub enum FsNode {
    /// A regular file and its content.
    File { data: Vec<u8> },
    /// A directory and its direct children.
    Dir { entries: Vec<FsEntry> },
}

/// A named child of a directory.
pub struct FsEntry {
    /// The child's name, as raw path-segment bytes.
    pub name: Vec<u8>,
    /// The child itself.
    pub node: FsNode,
}

/// One resolved tree entry: the child's kind, name and binary digest.
pub struct TreeEntry {
    /// Whether the child is a directory.
    pub is_dir: bool,
    /// The child's name.
    pub name: Vec<u8>,
    /// The 20-byte binary digest of the child's object.
    pub digest: Vec<u8>,
}

/// The mathematical view of a tree entry.
pub ghost struct GEntry {
    /// Whether the child is a directory.
    pub is_dir: bool,
    /// The child's name.
    pub name: Seq<u8>,
    /// The child object's binary digest.
    pub digest: Seq<u8>,
}

impl View for TreeEntry {
    type V = GEntry;

    open spec fn view(&self) -> GEntry {
        GEntry { is_dir: self.is_dir, name: self.name@, digest: self.digest@ }
    }
}

/// The views of a sequence of tree entries.
pub open spec fn gview(s: Seq<TreeEntry>) -> Seq<GEntry> {
    s.map_values(|e: TreeEntry| e@)
}

/// Names that the tree composer never records: the self and parent
/// pseudo-entries and the repository metadata directory.
pub open spec fn is_ignored_name(s: Seq<u8>) -> bool {
    s == seq![46u8] || s == seq![46u8, 46u8] || s == seq![46u8, 103u8, 105u8, 116u8]
}

/// Whether a name is skipped by the tree composer (`.`, `..`, `.git`).
pub fn is_ignored(name: &[u8]) -> (r: bool)
    ensures
        r == is_ignored_name(name@),
{
    proof {
        assert(seq![46u8].len() == 1);
        assert(seq![46u8, 46u8].len() == 2);
        assert(seq![46u8, 103u8, 105u8, 116u8].len() == 4);
    }
    if name.len() == 1 {
        let r = name[0] == 46;
        proof {
            if r {
                assert(name@ =~= seq![46u8]);
            } else {
                assert(name@ != seq![46u8]);
            }
        }
        r
    } else if name.len() == 2 {
        let r = name[0] == 46 && name[1] == 46;
        proof {
            if r {
                assert(name@ =~= seq![46u8, 46u8]);
            } else {
                assert(name@ != seq![46u8, 46u8]);
            }
        }
        r
    } else if name.len() == 4 {
        let r = name[0] == 46 && name[1] == 103 && name[2] == 105 && name[3] == 116;
        proof {
            if r {
                assert(name@ =~= seq![46u8, 103u8, 105u8, 116u8]);
            } else {
                assert(name@ != seq![46u8, 103u8, 105u8, 116u8]);
            }
        }
        r
    } else {
        false
    }
}

/// The entries that the composer keeps: those whose name is not ignored.
pub open spec fn eligible(s: Seq<GEntry>) -> Seq<GEntry> {
    s.filter(|e: GEntry| !is_ignored_name(e.name))
}

/// Inserts an entry into a name-sorted sequence, before the first entry
/// whose name is not smaller.
pub open spec fn insert_sorted(e: GEntry, s: Seq<GEntry>) -> Seq<GEntry>
    decreases s.len(),
{
    if s.len() == 0 {
        seq![e]
    } else if lex_leq(e.name, s[0].name) {
        seq![e] + s
    } else {
        seq![s[0]] + insert_sorted(e, s.drop_first())
    }
}

/// Sorts entries by name in byte-wise lexicographic order.
pub open spec fn sort_entries(s: Seq<GEntry>) -> Seq<GEntry>
    decreases s.len(),
{
    if s.len() == 0 {
        Seq::empty()
    } else {
        insert_sorted(s.last(), sort_entries(s.drop_last()))
    }
}

/// Whether entries are in ascending byte-wise name order.
pub open spec fn entries_sorted(s: Seq<GEntry>) -> bool {
    forall|i: int, j: int| 0 <= i < j < s.len() ==> lex_leq(s[i].name, s[j].name)
}

/// Whether no two entries share a name.
pub open spec fn distinct_names(s: Seq<GEntry>) -> bool {
    forall|i: int, j: int| 0 <= i < j < s.len() ==> s[i].name != s[j].name
}

/// The names of a sequence of entries, in order.
pub open spec fn names_of(s: Seq<GEntry>) -> Seq<Seq<u8>> {
    s.map_values(|e: GEntry| e.name)
}

/// The mode label of an entry: `40000` for a directory, `100644` for a
/// regular file.
pub open spec fn mode_bytes(is_dir: bool) -> Seq<u8> {
    if is_dir {
        seq![52u8, 48u8, 48u8, 48u8, 48u8]
    } else {
        seq![49u8, 48u8, 48u8, 54u8, 52u8, 52u8]
    }
}

/// The encoding of one tree entry.
pub open spec fn entry_enc(e: GEntry) -> Seq<u8> {
    mode_bytes(e.is_dir) + seq![32u8] + e.name + seq![0u8] + e.digest
}

/// The payload of a tree object: entry encodings back to back.
pub open spec fn payload_of(ts: Seq<GEntry>) -> Seq<u8>
    decreases ts.len(),
{
    if ts.len() == 0 {
        Seq::empty()
    } else {
        entry_enc(ts[0]) + payload_of(ts.drop_first())
    }
}

/// Appending an entry appends its encoding.
pub proof fn lemma_payload_push(ts: Seq<GEntry>, e: GEntry)
    ensures
        payload_of(ts.push(e)) == payload_of(ts) + entry_enc(e),
    decreases ts.len(),
{
    let p = ts.push(e);
    if ts.len() == 0 {
        assert(p[0] == e);
        assert(p.drop_first() =~= Seq::<GEntry>::empty());
        assert(payload_of(p) == entry_enc(e) + payload_of(p.drop_first()));
        assert(payload_of(p) =~= payload_of(ts) + entry_enc(e));
    } else {
        assert(p[0] == ts[0]);
        assert(p.drop_first() =~= ts.drop_first().push(e));
        lemma_payload_push(ts.drop_first(), e);
        assert(payload_of(p) == entry_enc(ts[0]) + (payload_of(ts.drop_first()) + entry_enc(e)));
        assert(payload_of(p) =~= payload_of(ts) + entry_enc(e));
    }
}

/// Whether a name may stand in a tree entry: it must not contain the
/// NUL field separator.
pub open spec fn wf_name(s: Seq<u8>) -> bool {
    forall|i: int| 0 <= i < s.len() ==> s[i] != 0
}

/// Whether a node's names are all well-formed, recursively.
pub open spec fn wf_node(n: FsNode) -> bool
    decreases n, 1int,
{
    match n {
        FsNode::File { data } => true,
        FsNode::Dir { entries } => wf_entries(entries@),
    }
}

/// Whether every entry of a child list is well-formed.
pub open spec fn wf_entries(es: Seq<FsEntry>) -> bool
    decreases es, 0int,
{
    forall|i: int| 0 <= i < es.len() ==> wf_entry(#[trigger] es[i])
}

/// Whether one child is well-formed: its name has no NUL byte and its
/// node is well-formed in turn.
pub open spec fn wf_entry(e: FsEntry) -> bool
    decreases e, 2int,
{
    wf_name(e.name@) && wf_node(e.node)
}

/// The binary digest a node's object will have.
pub open spec fn node_key_bin(n: FsNode) -> Seq<u8>
    decreases n, 3int,
{
    match n {
        FsNode::File { data } => obj_key_bin(ObjectKind::Blob, data@),
        FsNode::Dir { entries } => obj_key_bin(ObjectKind::Tree, dir_payload(entries@)),
    }
}

/// The tree payload a child list composes to: each eligible child's
/// mode, name and digest, sorted by name.
pub open spec fn dir_payload(es: Seq<FsEntry>) -> Seq<u8>
    decreases es, 2int,
{
    payload_of(sort_entries(eligible(gtriples(es))))
}

/// The resolved entries of a child list, in the order given.
pub open spec fn gtriples(es: Seq<FsEntry>) -> Seq<GEntry>
    decreases es, 1int,
{
    if es.len() == 0 {
        Seq::empty()
    } else {
        gtriples(es.drop_last()).push(gtriple(es.last()))
    }
}

/// The resolved entry of one child.
pub open spec fn gtriple(e: FsEntry) -> GEntry
    decreases e, 0int,
{
    GEntry { is_dir: e.node is Dir, name: e.name@, digest: node_key_bin(e.node) }
}

/// The hexadecimal key a node's object will be stored under.
pub open spec fn node_key_hex(n: FsNode) -> Seq<u8> {
    hex_of(node_key_bin(n))
}

/// The hexadecimal key a child list's tree object will be stored under.
pub open spec fn dir_key_hex(es: Seq<FsEntry>) -> Seq<u8> {
    obj_key_hex(ObjectKind::Tree, dir_payload(es))
}

/// Inserts an entry into a name-sorted vector, keeping it sorted.
#[verifier::loop_isolation(false)]
fn insert_entry(out: &mut Vec<TreeEntry>, e: TreeEntry)
    ensures
        gview(final(out)@) == insert_sorted(e@, gview(old(out)@)),
{
    let ghost ge = e@;
    let ghost gs = gview(old(out)@);
    let mut j: usize = 0;
    while j < out.len() && !bytes_leq(e.name.as_slice(), out[j].name.as_slice())
        invariant
            0 <= j <= out@.len(),
            out@ == old(out)@,
            forall|m: int| 0 <= m < j ==> !lex_leq(ge.name, gs[m].name),
        decreases out@.len() - j,
    {
        proof {
            assert(gs[j as int] == out@[j as int]@);
        }
        j += 1;
    }
    proof {
        assert(j < out@.len() ==> lex_leq(ge.name, gs[j as int].name)) by {
            if j < out@.len() {
                assert(gs[j as int] == out@[j as int]@);
            }
        }
        lemma_insert_sorted_at(ge, gs, j as int);
    }
    out.insert(j, e);
    proof {
        assert(gview(out@) =~= gs.take(j as int) + seq![ge] + gs.skip(j as int));
    }
}

/// Where the insertion point is, `insert_sorted` splits the sequence.
proof fn lemma_insert_sorted_at(e: GEntry, s: Seq<GEntry>, j: int)
    requires
        0 <= j <= s.len(),
        forall|m: int| 0 <= m < j ==> !lex_leq(e.name, s[m].name),
        j < s.len() ==> lex_leq(e.name, s[j].name),
    ensures
        insert_sorted(e, s) == s.take(j) + seq![e] + s.skip(j),
    decreases j,
{
    if j == 0 {
        if s.len() == 0 {
            assert(insert_sorted(e, s) =~= s.take(0) + seq![e] + s.skip(0));
        } else {
            assert(insert_sorted(e, s) =~= s.take(0) + seq![e] + s.skip(0));
        }
    } else {
        assert(!lex_leq(e.name, s[0].name));
        let d = s.drop_first();
        assert forall|m: int| 0 <= m < j - 1 implies !lex_leq(e.name, d[m].name) by {
            assert(d[m] == s[m + 1]);
        }
        assert(j - 1 < d.len() ==> lex_leq(e.name, d[j - 1].name));
        lemma_insert_sorted_at(e, d, j - 1);
        assert(insert_sorted(e, s) =~= s.take(j) + seq![e] + s.skip(j));
    }
}

/// One sorting step: taking one more input entry inserts its view.
proof fn lemma_sort_step(orig: Seq<TreeEntry>, k: int)
    requires
        0 <= k < orig.len(),
    ensures
        sort_entries(gview(orig.take(k + 1))) == insert_sorted(
            orig[k]@,
            sort_entries(gview(orig.take(k))),
        ),
{
    let s = gview(orig.take(k + 1));
    assert(orig.take(k + 1).drop_last() =~= orig.take(k));
    assert(s.len() == k + 1);
    assert(s.last() == orig[k]@);
    assert(s.drop_last() =~= gview(orig.take(k)));
}

/// Sorts tree entries by name.
#[verifier::loop_isolation(false)]
fn sort_tree_entries(input: Vec<TreeEntry>) -> (out: Vec<TreeEntry>)
    ensures
        gview(out@) == sort_entries(gview(input@)),
{
    let ghost orig = input@;
    let mut rest = input;
    let mut out: Vec<TreeEntry> = Vec::new();
    proof {
        assert(orig.take(0) =~= Seq::<TreeEntry>::empty());
        assert(gview(Seq::<TreeEntry>::empty()) =~= Seq::<GEntry>::empty());
    }
    while rest.len() > 0
        invariant
            rest@.len() <= orig.len(),
            rest@ =~= orig.skip(orig.len() - rest@.len()),
            gview(out@) == sort_entries(gview(orig.take(orig.len() - rest@.len()))),
        decreases rest@.len(),
    {
        let ghost k = orig.len() - rest@.len();
        let e = rest.remove(0);
        proof {
            assert(e == orig[k]);
            assert(rest@ =~= orig.skip(k + 1));
        }
        insert_entry(&mut out, e);
        proof {
            lemma_sort_step(orig, k);
        }
    }
    proof {
        assert(orig.take(orig.len() as int) =~= orig);
    }
    out
}

/// Encodes sorted entries into a tree payload.
#[verifier::loop_isolation(false)]
fn encode_entries(ts: &Vec<TreeEntry>) -> (r: Vec<u8>)
    ensures
        r@ == payload_of(gview(ts@)),
{
    let mut out: Vec<u8> = Vec::new();
    let mut i: usize = 0;
    proof {
        assert(gview(ts@).take(0) =~= Seq::<GEntry>::empty());
    }
    while i < ts.len()
        invariant
            0 <= i <= ts@.len(),
            out@ == payload_of(gview(ts@).take(i as int)),
        decreases ts@.len() - i,
    {
        let e = &ts[i];
        if e.is_dir {
            out.push(52);
            out.push(48);
            out.push(48);
            out.push(48);
            out.push(48);
        } else {
            out.push(49);
            out.push(48);
            out.push(48);
            out.push(54);
            out.push(52);
            out.push(52);
        }
        out.push(32);
        push_all(&mut out, e.name.as_slice());
        out.push(0);
        push_all(&mut out, e.digest.as_slice());
        proof {
            let g = gview(ts@);
            assert(g[i as int] == ts@[i as int]@);
            assert(g.take(i + 1).drop_last() =~= g.take(i as int));
            assert(g.take(i + 1) =~= g.take(i as int).push(g[i as int]));
            lemma_payload_push(g.take(i as int), g[i as int]);
            assert(out@ =~= payload_of(g.take(i as int)) + entry_enc(g[i as int]));
        }
        i += 1;
    }
    proof {
        assert(gview(ts@).take(gview(ts@).len() as int) =~= gview(ts@));
    }
    out
}

/// Stores one node: a file's bytes as a blob object, a directory as a
/// tree object, returning the new object's key.
pub fn compose_node(store: &mut Store, n: &FsNode) -> (key: Vec<u8>)
    requires
        old(store).wf(),
        wf_node(*n),
    ensures
        final(store).wf(),
        key@ == node_key_hex(*n),
        key@.len() == 40,
        final(store).model().contains_key(key@),
        forall|k: Seq<u8>|
            #[trigger] old(store).model().contains_key(k) ==> final(store).model().contains_key(k)
                && final(store).model()[k] == old(store).model()[k],
    decreases *n, 1int,
{
    match n {
        FsNode::File { data } => {
            let key = store.write_object(ObjectKind::Blob, data.as_slice());
            key
        },
        FsNode::Dir { entries } => compose_tree(store, entries),
    }
}

/// Composes a directory's child list into a tree object: stores every
/// eligible child (files as blobs, directories as trees, recursively),
/// sorts the resulting entries by name, and stores their encoding as one
/// tree object, returning its key.
pub fn compose_tree(store: &mut Store, entries: &Vec<FsEntry>) -> (key: Vec<u8>)
    requires
        old(store).wf(),
        wf_entries(entries@),
    ensures
        final(store).wf(),
        key@ == dir_key_hex(entries@),
        key@.len() == 40,
        final(store).model().contains_key(key@),
        forall|k: Seq<u8>|
            #[trigger] old(store).model().contains_key(k) ==> final(store).model().contains_key(k)
                && final(store).model()[k] == old(store).model()[k],
    decreases entries@, 2int,
{
    let mut ts: Vec<TreeEntry> = Vec::new();
    let n = entries.len();
    let mut i: usize = 0;
    proof {
        assert(entries@.take(0) =~= Seq::<FsEntry>::empty());
        assert(gview(ts@) =~= eligible(gtriples(entries@.take(0)))) by {
            reveal(Seq::filter);
        }
    }
    while i < n
        invariant
            n == entries@.len(),
            0 <= i <= n,
            store.wf(),
            wf_entries(entries@),
            gview(ts@) == eligible(gtriples(entries@.take(i as int))),
            forall|k: Seq<u8>|
                #[trigger] old(store).model().contains_key(k) ==> store.model().contains_key(k)
                    && store.model()[k] == old(store).model()[k],
        decreases n - i,
    {
        let e = &entries[i];
        proof {
            assert(wf_entry(entries@[i as int]));
        }
        if !is_ignored(e.name.as_slice()) {
            let child_key = compose_node(store, &e.node);
            proof {
                lemma_hex_of_wf(node_key_bin(entries@[i as int].node));
            }
            let digest = hex_to_bin(child_key.as_slice());
            proof {
                lemma_bin_of_hex_of(node_key_bin(entries@[i as int].node));
            }
            let is_dir = match &e.node {
                FsNode::Dir { .. } => true,
                FsNode::File { .. } => false,
            };
            let name = vstd::slice::slice_to_vec(e.name.as_slice());
            ts.push(TreeEntry { is_dir, name, digest });
        }
        proof {
            let tprev = gtriples(entries@.take(i as int));
            let tcur = gtriples(entries@.take(i + 1));
            let g = gtriple(entries@[i as int]);
            assert(entries@.take(i + 1).drop_last() =~= entries@.take(i as int));
            assert(entries@.take(i + 1).last() == entries@[i as int]);
            assert(tcur == tprev.push(g));
            assert(tcur.len() > 0 && tcur.drop_last() =~= tprev && tcur.last() == g);
            reveal(Seq::filter);
            if !is_ignored_name(g.name) {
                assert(eligible(tcur) == eligible(tprev).push(g));
                assert(gview(ts@) =~= eligible(tcur));
            } else {
                assert(eligible(tcur) == eligible(tprev));
            }
        }
        i += 1;
    }
    proof {
        assert(entries@.take(n as int) =~= entries@);
    }
    let sorted = sort_tree_entries(ts);
    let payload = encode_entries(&sorted);
    proof {
        assert(payload@ == dir_payload(entries@));
    }
    store.write_object(ObjectKind::Tree, payload.as_slice())
}

/// Reads a tree payload back into its entry names, in stored order.
pub open spec fn tree_names(p: Seq<u8>) -> Option<Seq<Seq<u8>>>
    decreases p.len(),
{
    if p.len() == 0 {
        Some(Seq::empty())
    } else {
        match find_byte(p, 32) {
            None => None,
            Some(sp) => {
                if sp < 0 || sp >= p.len() {
                    None
                } else {
                    let rest = p.skip(sp + 1);
                    match find_byte(rest, 0) {
                        None => None,
                        Some(z) => {
                            if z < 0 || z >= rest.len() {
                                None
                            } else {
                                let name = rest.take(z);
                                let after = rest.skip(z + 1);
                                if after.len() < 20 {
                                    None
                                } else {
                                    match tree_names(after.skip(20)) {
                                        None => None,
                                        Some(ns) => Some(seq![name] + ns),
                                    }
                                }
                            }
                        },
                    }
                }
            },
        }
    }
}

/// Parses a tree payload into its entry names; agrees with `tree_names`.
pub fn parse_tree_names(p: &[u8]) -> (r: Option<Vec<Vec<u8>>>)
    ensures
        match tree_names(p@) {
            Some(ns) => {
                &&& r matches Some(v)
                &&& v@.len() == ns.len()
                &&& forall|i: int| 0 <= i < ns.len() ==> v@[i]@ == ns[i]
            },
            None => r is None,
        },
    decreases p@.len(),
{
    if p.len() == 0 {
        let empty: Vec<Vec<u8>> = Vec::new();
        return Some(empty);
    }
    match find_byte_in(p, 32) {
        None => None,
        Some(sp) => {
            proof {
                lemma_find_byte(p@, 32);
            }
            let rest = vstd::slice::slice_subrange(p, sp + 1, p.len());
            match find_byte_in(rest, 0) {
                None => None,
                Some(z) => {
                    proof {
                        lemma_find_byte(rest@, 0);
                    }
                    let name = vstd::slice::slice_to_vec(vstd::slice::slice_subrange(rest, 0, z));
                    let after = vstd::slice::slice_subrange(rest, z + 1, rest.len());
                    if after.len() < 20 {
                        None
                    } else {
                        let tail = vstd::slice::slice_subrange(after, 20, after.len());
                        proof {
                            assert(tail@ =~= rest@.skip(z + 1).skip(20));
                            assert(name@ =~= rest@.take(z as int));
                        }
                        match parse_tree_names(tail) {
                            None => None,
                            Some(mut v) => {
                                let ghost prev = v@;
                                let ghost gname = name@;
                                v.insert(0, name);
                                proof {
                                    assert(v@ =~= seq![v@[0]] + prev);
                                    match tree_names(tail@) {
                                        None => {
                                            assert(false);
                                        },
                                        Some(tns) => {
                                            let ns = seq![gname] + tns;
                                            assert(tree_names(p@) == Some(ns));
                                            assert forall|i: int| 0 <= i < ns.len() implies v@[i]@
                                                == ns[i] by {
                                                if i > 0 {
                                                    assert(v@[i] == prev[i - 1]);
                                                    assert(ns[i] == tns[i - 1]);
                                                }
                                            }
                                        },
                                    }
                                }
                                Some(v)
                            },
                        }
                    }
                },
            }
        },
    }
}

/// Decodes the tree object under a key and yields its entry names in
/// stored order; fails when the object is missing, malformed, or not a
/// tree.
pub fn list_tree_names(store: &Store, key: &[u8]) -> (r: Result<Vec<Vec<u8>>, StoreError>)
    requires
        store.wf(),
    ensures
        !store.model().contains_key(key@) ==> r == Err::<Vec<Vec<u8>>, StoreError>(
            StoreError::ObjectNotFound,
        ),
        forall|orig: Seq<u8>|
            store.model().contains_key(key@) && store.model()[key@] == #[trigger] compress_of(
                orig,
            ) ==> match parse_frame(orig) {
                None => r == Err::<Vec<Vec<u8>>, StoreError>(StoreError::CorruptObject),
                Some(kp) => {
                    if kp.0 != ObjectKind::Tree {
                        r == Err::<Vec<Vec<u8>>, StoreError>(StoreError::InvalidObjectKind)
                    } else {
                        match tree_names(kp.1) {
                            None => r == Err::<Vec<Vec<u8>>, StoreError>(StoreError::CorruptObject),
                            Some(ns) => {
                                &&& r matches Ok(v)
                                &&& v@.len() == ns.len()
                                &&& forall|i: int| 0 <= i < ns.len() ==> v@[i]@ == ns[i]
                            },
                        }
                    }
                },
            },
{
    match store.read_object(key) {
        Err(e) => Err(e),
        Ok((kind, body)) => {
            if kind != ObjectKind::Tree {
                Err(StoreError::InvalidObjectKind)
            } else {
                match parse_tree_names(body.as_slice()) {
                    None => Err(StoreError::CorruptObject),
                    Some(v) => Ok(v),
                }
            }
        },
    }
}

/// Every element of an insertion is the inserted entry or one of the
/// sequence's own.
proof fn lemma_insert_sorted_elems(e: GEntry, s: Seq<GEntry>)
    ensures
        insert_sorted(e, s).len() == s.len() + 1,
        forall|i: int|
            0 <= i < insert_sorted(e, s).len() ==> (#[trigger] insert_sorted(e, s)[i]) == e
                || s.contains(insert_sorted(e, s)[i]),
    decreases s.len(),
{
    if s.len() == 0 {
    } else if lex_leq(e.name, s[0].name) {
        let r = seq![e] + s;
        assert forall|i: int| 0 <= i < r.len() implies r[i] == e || s.contains(r[i]) by {
            if i > 0 {
                assert(r[i] == s[i - 1]);
            }
        }
    } else {
        let d = s.drop_first();
        lemma_insert_sorted_elems(e, d);
        let t = insert_sorted(e, d);
        let r = seq![s[0]] + t;
        assert forall|i: int| 0 <= i < r.len() implies r[i] == e || s.contains(r[i]) by {
            if i == 0 {
                assert(s[0] == s[0]);
            } else {
                let x = t[i - 1];
                assert(r[i] == x);
                if x != e {
                    let j = choose|j: int| 0 <= j < d.len() && d[j] == x;
                    assert(s[j + 1] == x);
                }
            }
        }
    }
}

/// Inserting into a name-sorted sequence keeps it sorted.
proof fn lemma_insert_sorted_sorted(e: GEntry, s: Seq<GEntry>)
    requires
        entries_sorted(s),
    ensures
        entries_sorted(insert_sorted(e, s)),
    decreases s.len(),
{
    if s.len() == 0 {
    } else if lex_leq(e.name, s[0].name) {
        let r = seq![e] + s;
        assert forall|i: int, j: int| 0 <= i < j < r.len() implies lex_leq(
            r[i].name,
            r[j].name,
        ) by {
            if i == 0 {
                assert(r[j] == s[j - 1]);
                if j > 1 {
                    lemma_lex_leq_transitive(e.name, s[0].name, s[j - 1].name);
                }
            } else {
                assert(r[i] == s[i - 1] && r[j] == s[j - 1]);
            }
        }
    } else {
        lemma_lex_leq_total(e.name, s[0].name);
        let d = s.drop_first();
        assert(entries_sorted(d)) by {
            assert forall|i: int, j: int| 0 <= i < j < d.len() implies lex_leq(
                d[i].name,
                d[j].name,
            ) by {
                assert(d[i] == s[i + 1] && d[j] == s[j + 1]);
            }
        }
        lemma_insert_sorted_sorted(e, d);
        lemma_insert_sorted_elems(e, d);
        let t = insert_sorted(e, d);
        let r = seq![s[0]] + t;
        assert forall|i: int, j: int| 0 <= i < j < r.len() implies lex_leq(
            r[i].name,
            r[j].name,
        ) by {
            if i == 0 {
                let x = t[j - 1];
                assert(r[j] == x);
                if x == e {
                } else {
                    let k = choose|k: int| 0 <= k < d.len() && d[k] == x;
                    assert(d[k] == s[k + 1]);
                }
            } else {
                assert(r[i] == t[i - 1] && r[j] == t[j - 1]);
            }
        }
    }
}

/// Law: sorting yields entries in ascending byte-wise name order.
pub proof fn lemma_sort_entries_sorted(s: Seq<GEntry>)
    ensures
        entries_sorted(sort_entries(s)),
    decreases s.len(),
{
    if s.len() > 0 {
        lemma_sort_entries_sorted(s.drop_last());
        lemma_insert_sorted_sorted(s.last(), sort_entries(s.drop_last()));
    }
}

/// Insertion adds exactly the inserted entry to the contents.
proof fn lemma_insert_sorted_multiset(e: GEntry, s: Seq<GEntry>)
    ensures
        insert_sorted(e, s).to_multiset() == s.to_multiset().insert(e),
    decreases s.len(),
{
    broadcast use vstd::seq_lib::group_to_multiset_ensures;
    broadcast use vstd::multiset::group_multiset_axioms;

    if s.len() == 0 {
        assert(insert_sorted(e, s) =~= Seq::<GEntry>::empty().push(e));
        assert(insert_sorted(e, s).to_multiset() =~= s.to_multiset().insert(e));
    } else if lex_leq(e.name, s[0].name) {
        vstd::seq_lib::lemma_multiset_commutative(seq![e], s);
        assert(seq![e] =~= Seq::<GEntry>::empty().push(e));
        assert(insert_sorted(e, s).to_multiset() =~= s.to_multiset().insert(e));
    } else {
        let d = s.drop_first();
        lemma_insert_sorted_multiset(e, d);
        vstd::seq_lib::lemma_multiset_commutative(seq![s[0]], insert_sorted(e, d));
        vstd::seq_lib::lemma_multiset_commutative(seq![s[0]], d);
        assert(s =~= seq![s[0]] + d);
        assert(seq![s[0]] =~= Seq::<GEntry>::empty().push(s[0]));
        assert(insert_sorted(e, s).to_multiset() =~= s.to_multiset().insert(e));
    }
}

/// Law: sorting keeps exactly the entries it was given.
pub proof fn lemma_sort_entries_multiset(s: Seq<GEntry>)
    ensures
        sort_entries(s).to_multiset() == s.to_multiset(),
    decreases s.len(),
{
    broadcast use vstd::seq_lib::group_to_multiset_ensures;

    if s.len() > 0 {
        lemma_sort_entries_multiset(s.drop_last());
        lemma_insert_sorted_multiset(s.last(), sort_entries(s.drop_last()));
        assert(s =~= s.drop_last().push(s.last()));
        assert(sort_entries(s).to_multiset() =~= s.to_multiset());
    }
}

/// Two name-sorted sequences with the same contents are the same
/// sequence, as long as no name repeats.
pub proof fn lemma_sorted_unique(a: Seq<GEntry>, b: Seq<GEntry>)
    requires
        entries_sorted(a),
        entries_sorted(b),
        distinct_names(a),
        a.to_multiset() == b.to_multiset(),
    ensures
        a == b,
    decreases a.len(),
{
    broadcast use vstd::seq_lib::group_to_multiset_ensures;

    if a.len() == 0 {
        assert(b.to_multiset().len() == 0);
        assert(a =~= b);
    } else {
        assert(a.contains(a[0]));
        assert(b.to_multiset().count(a[0]) > 0);
        assert(b.contains(a[0]));
        let jb = choose|j: int| 0 <= j < b.len() && b[j] == a[0];
        assert(b.contains(b[0]));
        assert(a.to_multiset().count(b[0]) > 0);
        assert(a.contains(b[0]));
        let ia = choose|i: int| 0 <= i < a.len() && a[i] == b[0];
        assert(lex_leq(b[0].name, a[0].name)) by {
            if jb > 0 {
                assert(lex_leq(b[0].name, b[jb].name));
            } else {
                lemma_lex_leq_reflexive(b[0].name);
            }
        }
        assert(lex_leq(a[0].name, b[0].name)) by {
            if ia > 0 {
                assert(lex_leq(a[0].name, a[ia].name));
            } else {
                lemma_lex_leq_reflexive(a[0].name);
            }
        }
        lemma_lex_leq_antisymmetric(a[0].name, b[0].name);
        assert(ia == 0) by {
            if ia > 0 {
                assert(a[0].name != a[ia].name);
            }
        }
        assert(a[0] == b[0]);
        let a1 = a.drop_first();
        let b1 = b.drop_first();
        assert(a1 =~= a.remove(0));
        assert(b1 =~= b.remove(0));
        assert(a1.to_multiset() == b1.to_multiset()) by {
            assert(a.remove(0).to_multiset() =~= a.to_multiset().remove(a[0]));
            assert(b.remove(0).to_multiset() =~= b.to_multiset().remove(b[0]));
        }
        assert(entries_sorted(a1) && distinct_names(a1)) by {
            assert forall|i: int, j: int| 0 <= i < j < a1.len() implies lex_leq(
                a1[i].name,
                a1[j].name,
            ) && a1[i].name != a1[j].name by {
                assert(a1[i] == a[i + 1] && a1[j] == a[j + 1]);
            }
        }
        assert(entries_sorted(b1)) by {
            assert forall|i: int, j: int| 0 <= i < j < b1.len() implies lex_leq(
                b1[i].name,
                b1[j].name,
            ) by {
                assert(b1[i] == b[i + 1] && b1[j] == b[j + 1]);
            }
        }
        lemma_sorted_unique(a1, b1);
        assert(a.len() == b.len());
        assert forall|i: int| 0 <= i < a.len() implies a[i] == b[i] by {
            if i > 0 {
                assert(a1[i - 1] == b1[i - 1]);
            }
        }
        assert(a =~= b);
    }
}

/// How many entries equal to a given one survive the eligibility filter:
/// all of them when its name is not ignored, none otherwise.
proof fn lemma_eligible_count(s: Seq<GEntry>, x: GEntry)
    ensures
        eligible(s).to_multiset().count(x) == if !is_ignored_name(x.name) {
            s.to_multiset().count(x)
        } else {
            0nat
        },
    decreases s.len(),
{
    broadcast use vstd::seq_lib::group_to_multiset_ensures;
    broadcast use vstd::multiset::group_multiset_axioms;

    reveal(Seq::filter);
    if s.len() == 0 {
        assert(eligible(s) =~= s);
    } else {
        let d = s.drop_last();
        lemma_eligible_count(d, x);
        assert(s =~= d.push(s.last()));
        assert(s.drop_last() == d);
        vstd::multiset::lemma_insert_increases_count_by_1(d.to_multiset(), s.last());
        if x != s.last() {
            vstd::multiset::lemma_insert_other_elements_unchanged(
                d.to_multiset(),
                s.last(),
                x,
            );
            if !is_ignored_name(s.last().name) {
                vstd::multiset::lemma_insert_other_elements_unchanged(
                    eligible(d).to_multiset(),
                    s.last(),
                    x,
                );
            }
        } else {
            if !is_ignored_name(s.last().name) {
                vstd::multiset::lemma_insert_increases_count_by_1(
                    eligible(d).to_multiset(),
                    s.last(),
                );
            }
        }
    }
}

/// The eligible entries of two enumerations of the same children are the
/// same collection.
proof fn lemma_eligible_permutation(a: Seq<GEntry>, b: Seq<GEntry>)
    requires
        a.to_multiset() == b.to_multiset(),
    ensures
        eligible(a).to_multiset() == eligible(b).to_multiset(),
{
    broadcast use vstd::multiset::group_multiset_axioms;

    assert forall|x: GEntry|
        eligible(a).to_multiset().count(x) == eligible(b).to_multiset().count(x) by {
        lemma_eligible_count(a, x);
        lemma_eligible_count(b, x);
    }
    assert(eligible(a).to_multiset() =~= eligible(b).to_multiset());
}

/// Every eligible entry is one of the sequence's own.
proof fn lemma_eligible_subset(s: Seq<GEntry>)
    ensures
        forall|i: int| 0 <= i < eligible(s).len() ==> s.contains(#[trigger] eligible(s)[i]),
    decreases s.len(),
{
    reveal(Seq::filter);
    if s.len() > 0 {
        let d = s.drop_last();
        lemma_eligible_subset(d);
        assert forall|i: int| 0 <= i < eligible(s).len() implies s.contains(
            #[trigger] eligible(s)[i],
        ) by {
            let x = eligible(s)[i];
            if !is_ignored_name(s.last().name) && i == eligible(s).len() - 1 {
                assert(x == s.last());
                assert(s[s.len() - 1] == x);
            } else {
                assert(x == eligible(d)[i]);
                assert(d.contains(x));
                let k = choose|k: int| 0 <= k < d.len() && d[k] == x;
                assert(s[k] == x);
            }
        }
    }
}

/// Filtering keeps names distinct.
proof fn lemma_eligible_distinct(s: Seq<GEntry>)
    requires
        distinct_names(s),
    ensures
        distinct_names(eligible(s)),
    decreases s.len(),
{
    reveal(Seq::filter);
    if s.len() > 0 {
        let d = s.drop_last();
        assert(distinct_names(d)) by {
            assert forall|i: int, j: int| 0 <= i < j < d.len() implies d[i].name != d[j].name by {
                assert(d[i] == s[i] && d[j] == s[j]);
            }
        }
        lemma_eligible_distinct(d);
        lemma_eligible_subset(d);
        if !is_ignored_name(s.last().name) {
            let r = eligible(d).push(s.last());
            assert(eligible(s) == r);
            assert forall|i: int, j: int| 0 <= i < j < r.len() implies r[i].name != r[j].name by {
                if j == r.len() - 1 {
                    assert(r[i] == eligible(d)[i]);
                    assert(d.contains(eligible(d)[i]));
                    let k = choose|k: int| 0 <= k < d.len() && d[k] == eligible(d)[i];
                    assert(s[k] == eligible(d)[i] && s[s.len() - 1] == s.last());
                } else {
                    assert(r[i] == eligible(d)[i] && r[j] == eligible(d)[j]);
                }
            }
        }
    }
}

/// Inserting an entry with a fresh name keeps names distinct.
proof fn lemma_insert_sorted_distinct(e: GEntry, s: Seq<GEntry>)
    requires
        distinct_names(s),
        forall|i: int| 0 <= i < s.len() ==> (#[trigger] s[i]).name != e.name,
    ensures
        distinct_names(insert_sorted(e, s)),
    decreases s.len(),
{
    if s.len() == 0 {
    } else if lex_leq(e.name, s[0].name) {
        let r = seq![e] + s;
        assert forall|i: int, j: int| 0 <= i < j < r.len() implies r[i].name != r[j].name by {
            if i == 0 {
                assert(r[j] == s[j - 1]);
            } else {
                assert(r[i] == s[i - 1] && r[j] == s[j - 1]);
            }
        }
    } else {
        let d = s.drop_first();
        assert(distinct_names(d)) by {
            assert forall|i: int, j: int| 0 <= i < j < d.len() implies d[i].name != d[j].name by {
                assert(d[i] == s[i + 1] && d[j] == s[j + 1]);
            }
        }
        assert forall|i: int| 0 <= i < d.len() implies (#[trigger] d[i]).name != e.name by {
            assert(d[i] == s[i + 1]);
        }
        lemma_insert_sorted_distinct(e, d);
        lemma_insert_sorted_elems(e, d);
        let t = insert_sorted(e, d);
        let r = seq![s[0]] + t;
        assert forall|i: int, j: int| 0 <= i < j < r.len() implies r[i].name != r[j].name by {
            if i == 0 {
                let x = t[j - 1];
                assert(r[j] == x);
                if x == e {
                } else {
                    let k = choose|k: int| 0 <= k < d.len() && d[k] == x;
                    assert(s[k + 1] == x);
                }
            } else {
                assert(r[i] == t[i - 1] && r[j] == t[j - 1]);
            }
        }
    }
}

/// Sorting keeps names distinct.
pub proof fn lemma_sort_entries_distinct(s: Seq<GEntry>)
    requires
        distinct_names(s),
    ensures
        distinct_names(sort_entries(s)),
    decreases s.len(),
{
    broadcast use vstd::seq_lib::group_to_multiset_ensures;

    if s.len() > 0 {
        let d = s.drop_last();
        assert(distinct_names(d)) by {
            assert forall|i: int, j: int| 0 <= i < j < d.len() implies d[i].name != d[j].name by {
                assert(d[i] == s[i] && d[j] == s[j]);
            }
        }
        lemma_sort_entries_distinct(d);
        lemma_sort_entries_multiset(d);
        assert forall|i: int| 0 <= i < sort_entries(d).len() implies (#[trigger] sort_entries(
            d,
        )[i]).name != s.last().name by {
            let x = sort_entries(d)[i];
            assert(sort_entries(d).contains(x));
            assert(sort_entries(d).to_multiset().count(x) > 0);
            assert(d.contains(x));
            let k = choose|k: int| 0 <= k < d.len() && d[k] == x;
            assert(s[k] == x && s[s.len() - 1] == s.last());
        }
        lemma_insert_sorted_distinct(s.last(), sort_entries(d));
    }
}

/// Whether entries may stand in a tree payload: names without NUL bytes
/// and digests of the fixed 20-byte width.
pub open spec fn entries_wf(s: Seq<GEntry>) -> bool {
    forall|i: int|
        0 <= i < s.len() ==> wf_name((#[trigger] s[i]).name) && s[i].digest.len() == 20
}

/// Law: a tree payload decodes back to exactly the names it was encoded
/// from, in order.
pub proof fn lemma_payload_parse(ts: Seq<GEntry>)
    requires
        entries_wf(ts),
    ensures
        tree_names(payload_of(ts)) == Some(names_of(ts)),
    decreases ts.len(),
{
    if ts.len() == 0 {
        assert(names_of(ts) =~= Seq::<Seq<u8>>::empty());
    } else {
        let e = ts[0];
        let rest = ts.drop_first();
        let p = payload_of(ts);
        let m = mode_bytes(e.is_dir).len() as int;
        assert(p == entry_enc(e) + payload_of(rest));
        assert(p[m] == 32);
        assert forall|j: int| 0 <= j < m implies p[j] != 32 by {
            assert(p[j] == mode_bytes(e.is_dir)[j]);
        }
        lemma_find_byte_exact(p, 32, m);
        let rest1 = p.skip(m + 1);
        assert(rest1 =~= e.name + seq![0u8] + e.digest + payload_of(rest));
        let z = e.name.len() as int;
        assert(rest1[z] == 0);
        assert forall|j: int| 0 <= j < z implies rest1[j] != 0 by {
            assert(rest1[j] == e.name[j]);
        }
        lemma_find_byte_exact(rest1, 0, z);
        assert(rest1.take(z) =~= e.name);
        let after = rest1.skip(z + 1);
        assert(after =~= e.digest + payload_of(rest));
        assert(after.skip(20) =~= payload_of(rest));
        assert(entries_wf(rest)) by {
            assert forall|i: int| 0 <= i < rest.len() implies wf_name(
                (#[trigger] rest[i]).name,
            ) && rest[i].digest.len() == 20 by {
                assert(rest[i] == ts[i + 1]);
            }
        }
        lemma_payload_parse(rest);
        assert(tree_names(p) == Some(seq![e.name] + names_of(rest)));
        assert(seq![e.name] + names_of(rest) =~= names_of(ts));
    }
}

/// Law: the entries of a composed tree payload decode in ascending
/// byte-wise name order, strictly so because the eligible children's
/// names are pairwise distinct.
pub proof fn lemma_tree_ordering(es: Seq<GEntry>)
    requires
        entries_wf(es),
        distinct_names(es),
    ensures
        ({
            let ts = sort_entries(eligible(es));
            &&& tree_names(payload_of(ts)) == Some(names_of(ts))
            &&& entries_sorted(ts)
            &&& distinct_names(ts)
            &&& forall|i: int, j: int|
                0 <= i < j < names_of(ts).len() ==> lex_leq(names_of(ts)[i], names_of(ts)[j])
                    && names_of(ts)[i] != names_of(ts)[j]
        }),
{
    broadcast use vstd::seq_lib::group_to_multiset_ensures;

    let el = eligible(es);
    let ts = sort_entries(el);
    lemma_eligible_subset(es);
    assert(entries_wf(el)) by {
        assert forall|i: int| 0 <= i < el.len() implies wf_name((#[trigger] el[i]).name)
            && el[i].digest.len() == 20 by {
            assert(es.contains(el[i]));
            let k = choose|k: int| 0 <= k < es.len() && es[k] == el[i];
            assert(es[k] == el[i]);
        }
    }
    lemma_sort_entries_multiset(el);
    assert(entries_wf(ts)) by {
        assert forall|i: int| 0 <= i < ts.len() implies wf_name((#[trigger] ts[i]).name)
            && ts[i].digest.len() == 20 by {
            let x = ts[i];
            assert(ts.contains(x));
            assert(ts.to_multiset().count(x) > 0);
            assert(el.contains(x));
            let k = choose|k: int| 0 <= k < el.len() && el[k] == x;
            assert(el[k] == x);
        }
    }
    lemma_payload_parse(ts);
    lemma_sort_entries_sorted(el);
    lemma_eligible_distinct(es);
    lemma_sort_entries_distinct(el);
    assert forall|i: int, j: int| 0 <= i < j < names_of(ts).len() implies lex_leq(
        names_of(ts)[i],
        names_of(ts)[j],
    ) && names_of(ts)[i] != names_of(ts)[j] by {
        assert(names_of(ts)[i] == ts[i].name && names_of(ts)[j] == ts[j].name);
    }
}

/// Law: the tree payload does not depend on the order in which the
/// filesystem enumerates a directory's children: two enumerations of the
/// same children compose to the same payload, hence the same key.
pub proof fn lemma_tree_enumeration_order(a: Seq<GEntry>, b: Seq<GEntry>)
    requires
        a.to_multiset() == b.to_multiset(),
        distinct_names(a),
    ensures
        payload_of(sort_entries(eligible(a))) == payload_of(sort_entries(eligible(b))),
{
    lemma_eligible_permutation(a, b);
    lemma_eligible_distinct(a);
    lemma_sort_entries_sorted(eligible(a));
    lemma_sort_entries_sorted(eligible(b));
    lemma_sort_entries_multiset(eligible(a));
    lemma_sort_entries_multiset(eligible(b));
    lemma_sort_entries_distinct(eligible(a));
    lemma_sorted_unique(sort_entries(eligible(a)), sort_entries(eligible(b)));
}

/// Law: a directory with no eligible children composes to a tree object
/// with an empty payload, which decodes to zero names.
pub proof fn lemma_empty_dir()
    ensures
        dir_payload(Seq::<FsEntry>::empty()) == Seq::<u8>::empty(),
        tree_names(Seq::<u8>::empty()) == Some(Seq::<Seq<u8>>::empty()),
{
    reveal(Seq::filter);
    assert(gtriples(Seq::<FsEntry>::empty()) =~= Seq::<GEntry>::empty());
    assert(eligible(Seq::<GEntry>::empty()) =~= Seq::<GEntry>::empty());
    assert(sort_entries(Seq::<GEntry>::empty()) =~= Seq::<GEntry>::empty());
}

} // verus!

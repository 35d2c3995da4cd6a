//! History nodes composed into commit objects.

use vstd::prelude::*;

use crate::bytes::dec_of;
use crate::bytes::push_all;
use crate::bytes::u64_to_dec;
use crate::codec::compress_of;
use crate::object::frame_of;
use crate::object::obj_key_hex;
use crate::object::ObjectKind;
use crate::store::write_model;
use crate::store::Store;

verus! {

/// `"tree "`.
pub open spec fn lit_tree() -> Seq<u8> {
    seq![116u8, 114u8, 101u8, 101u8, 32u8]
}

/// `"parent "`.
pub open spec fn lit_parent() -> Seq<u8> {
    seq![112u8, 97u8, 114u8, 101u8, 110u8, 116u8, 32u8]
}

/// `"author "`.
pub open spec fn lit_author() -> Seq<u8> {
    seq![97u8, 117u8, 116u8, 104u8, 111u8, 114u8, 32u8]
}

/// `"committer "`.
pub open spec fn lit_committer() -> Seq<u8> {
    seq![99u8, 111u8, 109u8, 109u8, 105u8, 116u8, 116u8, 101u8, 114u8, 32u8]
}

/// `" +0000\n"`: the fixed UTC offset and the line end.
pub open spec fn lit_offset() -> Seq<u8> {
    seq![32u8, 43u8, 48u8, 48u8, 48u8, 48u8, 10u8]
}

/// The view of an optional parent key.
pub open spec fn opt_bytes(p: Option<&[u8]>) -> Option<Seq<u8>> {
    match p {
        Some(b) => Some(b@),
        None => None,
    }
}

/// The textual payload of a commit object: a `tree` line, a `parent`
/// line only when a parent is given, `author` and `committer` lines with
/// the identity, timestamp and fixed UTC offset, a blank line, the
/// message, and a final line end.
pub open spec fn commit_payload(
    tree: Seq<u8>,
    parent: Option<Seq<u8>>,
    author: Seq<u8>,
    timestamp: u64,
    message: Seq<u8>,
) -> Seq<u8> {
    lit_tree() + tree + seq![10u8] + (match parent {
        Some(p) => lit_parent() + p + seq![10u8],
        None => Seq::<u8>::empty(),
    }) + lit_author() + author + seq![32u8] + dec_of(timestamp as nat) + lit_offset()
        + lit_committer() + author + seq![32u8] + dec_of(timestamp as nat) + lit_offset()
        + seq![10u8] + message + seq![10u8]
}

/// Builds the commit payload for a tree key, an optional parent key, an
/// author identity, a timestamp and a message, and stores it as a commit
/// object, returning the commit's key.
#[verifier::rlimit(60)]
pub fn write_commit(
    store: &mut Store,
    tree_key: &[u8],
    parent: Option<&[u8]>,
    author: &[u8],
    timestamp: u64,
    message: &[u8],
) -> (key: Vec<u8>)
    requires
        old(store).wf(),
    ensures
        final(store).wf(),
        key@ == obj_key_hex(
            ObjectKind::Commit,
            commit_payload(tree_key@, opt_bytes(parent), author@, timestamp, message@),
        ),
        key@.len() == 40,
        final(store).model() == write_model(
            old(store).model(),
            ObjectKind::Commit,
            commit_payload(tree_key@, opt_bytes(parent), author@, timestamp, message@),
        ),
        final(store).model().contains_key(key@),
        !old(store).model().contains_key(key@) ==> final(store).model()[key@] == compress_of(
            frame_of(
                ObjectKind::Commit,
                commit_payload(tree_key@, opt_bytes(parent), author@, timestamp, message@),
            ),
        ),
{
    let ghost target = commit_payload(tree_key@, opt_bytes(parent), author@, timestamp, message@);
    let mut pl: Vec<u8> = Vec::new();
    pl.push(116);
    pl.push(114);
    pl.push(101);
    pl.push(101);
    pl.push(32);
    proof {
        assert(pl@ =~= lit_tree());
    }
    push_all(&mut pl, tree_key);
    pl.push(10);
    let ghost head = lit_tree() + tree_key@ + seq![10u8];
    proof {
        assert(pl@ =~= head);
    }
    match parent {
        Some(pk) => {
            pl.push(112);
            pl.push(97);
            pl.push(114);
            pl.push(101);
            pl.push(110);
            pl.push(116);
            pl.push(32);
            push_all(&mut pl, pk);
            pl.push(10);
            proof {
                assert(pl@ =~= head + (lit_parent() + pk@ + seq![10u8]));
            }
        },
        None => {},
    }
    let ghost head2 = head + (match opt_bytes(parent) {
        Some(p) => lit_parent() + p + seq![10u8],
        None => Seq::<u8>::empty(),
    });
    proof {
        assert(pl@ =~= head2);
    }
    let stamp = u64_to_dec(timestamp);
    pl.push(97);
    pl.push(117);
    pl.push(116);
    pl.push(104);
    pl.push(111);
    pl.push(114);
    pl.push(32);
    push_all(&mut pl, author);
    pl.push(32);
    push_all(&mut pl, stamp.as_slice());
    pl.push(32);
    pl.push(43);
    pl.push(48);
    pl.push(48);
    pl.push(48);
    pl.push(48);
    pl.push(10);
    let ghost head3 = head2 + lit_author() + author@ + seq![32u8] + dec_of(timestamp as nat)
        + lit_offset();
    proof {
        assert(pl@ =~= head3);
    }
    pl.push(99);
    pl.push(111);
    pl.push(109);
    pl.push(109);
    pl.push(105);
    pl.push(116);
    pl.push(116);
    pl.push(101);
    pl.push(114);
    pl.push(32);
    push_all(&mut pl, author);
    pl.push(32);
    push_all(&mut pl, stamp.as_slice());
    pl.push(32);
    pl.push(43);
    pl.push(48);
    pl.push(48);
    pl.push(48);
    pl.push(48);
    pl.push(10);
    let ghost head4 = head3 + lit_committer() + author@ + seq![32u8] + dec_of(timestamp as nat)
        + lit_offset();
    proof {
        assert(pl@ =~= head4);
    }
    pl.push(10);
    push_all(&mut pl, message);
    pl.push(10);
    proof {
        assert(pl@ =~= head4 + seq![10u8] + message@ + seq![10u8]);
        assert(pl@ =~= target);
    }
    store.write_object(ObjectKind::Commit, pl.as_slice())
}

} // verus!

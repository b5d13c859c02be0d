//! What a file holds: the records at its addresses, the tree under an
//! address, and the tree under the root that the superblock records.
//!
//! A record is read from its address on and does not depend on what
//! follows it. So a record that can be read stays as it is when the file
//! grows, and no record changes when the superblock is rewritten.

use vstd::prelude::*;
use crate::agent::NodeRecord;
use crate::error::DbError;
use crate::serde_interface::{lemma_node_at_within, lemma_text_at_within, node_at, text_at};
use crate::storage::{root_of, SUPERBLOCK};
use crate::tree::{refines, tree_get, Tree};

verus! {

/// Whether `addr` can be the address of a record in the file `f`: it lies
/// behind the superblock and inside the file.
pub open spec fn addr_ok(f: Seq<u8>, addr: u64) -> bool {
    SUPERBLOCK <= addr < f.len()
}

/// The text of the value record at `addr` in the file `f`.
pub open spec fn value_at(f: Seq<u8>, addr: u64) -> Option<Seq<char>> {
    if addr_ok(f, addr) {
        match text_at(f.skip(addr as int), 0) {
            Some((text, _)) => Some(text),
            None => None,
        }
    } else {
        None
    }
}

/// Whether a record at `addr` may quote the address `child`: it must lie
/// behind the superblock and before `addr`, since a record is written
/// after all that it refers to.
pub open spec fn quotable(child: Option<u64>, addr: u64) -> bool {
    child matches Some(c) ==> SUPERBLOCK <= c < addr
}

/// Whether `record` may stand at `addr`: it has a value, and all that it
/// refers to was written before it.
pub open spec fn valid_record(record: NodeRecord, addr: u64) -> bool {
    &&& record.value_addr is Some
    &&& quotable(record.value_addr, addr)
    &&& quotable(record.left_addr, addr)
    &&& quotable(record.right_addr, addr)
}

/// The node record at `addr` in the file `f`.
pub open spec fn record_at(f: Seq<u8>, addr: u64) -> Option<NodeRecord> {
    if addr_ok(f, addr) {
        match node_at(f.skip(addr as int), 0) {
            Some((record, _)) => if valid_record(record, addr) {
                Some(record)
            } else {
                None
            },
            None => None,
        }
    } else {
        None
    }
}

/// The tree that the child address `child` of a record at `addr` stands
/// for.
pub open spec fn disk_child(f: Seq<u8>, child: Option<u64>, addr: u64) -> Tree
    decreases addr, 0nat,
{
    match child {
        Some(c) => if c < addr {
            disk_tree(f, c)
        } else {
            Tree::Unreadable
        },
        None => Tree::Empty,
    }
}

/// The tree that the file `f` holds at `addr`.
pub open spec fn disk_tree(f: Seq<u8>, addr: u64) -> Tree
    decreases addr, 1nat,
{
    match record_at(f, addr) {
        Some(record) => Tree::Node {
            key: record.key,
            size: record.size,
            value: value_at(f, record.value_addr->0),
            left: Box::new(disk_child(f, record.left_addr, addr)),
            right: Box::new(disk_child(f, record.right_addr, addr)),
        },
        None => Tree::Unreadable,
    }
}

/// A file that grew twice holds what it held at first.
pub proof fn lemma_prefix_trans(f: Seq<u8>, g: Seq<u8>, h: Seq<u8>)
    requires
        f.is_prefix_of(g),
        g.is_prefix_of(h),
    ensures
        f.is_prefix_of(h),
{
    assert(f =~= h.subrange(0, f.len() as int));
}

/// A value record that can be read stays as it is when the file grows.
pub proof fn lemma_value_extends(f: Seq<u8>, g: Seq<u8>, addr: u64)
    requires
        f.is_prefix_of(g),
        value_at(f, addr) is Some,
    ensures
        value_at(g, addr) == value_at(f, addr),
{
    let s = f.skip(addr as int);
    let rest = g.skip(f.len() as int);
    assert(g.skip(addr as int) =~= Seq::<u8>::empty() + s + rest);
    lemma_text_at_within(Seq::<u8>::empty(), s, rest, 0);
}

/// A node record that can be read stays as it is when the file grows.
pub proof fn lemma_record_extends(f: Seq<u8>, g: Seq<u8>, addr: u64)
    requires
        f.is_prefix_of(g),
        record_at(f, addr) is Some,
    ensures
        record_at(g, addr) == record_at(f, addr),
{
    let s = f.skip(addr as int);
    let rest = g.skip(f.len() as int);
    assert(g.skip(addr as int) =~= Seq::<u8>::empty() + s + rest);
    lemma_node_at_within(Seq::<u8>::empty(), s, rest, 0);
}

/// When the file grows, the tree that it holds at an address stays as it
/// is, but for nodes and values that could not be read before.
pub proof fn lemma_disk_tree_extends(f: Seq<u8>, g: Seq<u8>, addr: u64)
    requires
        f.is_prefix_of(g),
    ensures
        refines(disk_tree(f, addr), disk_tree(g, addr)),
    decreases addr, 1nat,
{
    match record_at(f, addr) {
        Some(record) => {
            lemma_record_extends(f, g, addr);
            if value_at(f, record.value_addr->0) is Some {
                lemma_value_extends(f, g, record.value_addr->0);
            }
            lemma_disk_child_extends(f, g, record.left_addr, addr);
            lemma_disk_child_extends(f, g, record.right_addr, addr);
        },
        None => {},
    }
}

/// When the file grows, the tree of a child address stays as it is, but
/// for nodes and values that could not be read before.
pub proof fn lemma_disk_child_extends(f: Seq<u8>, g: Seq<u8>, child: Option<u64>, addr: u64)
    requires
        f.is_prefix_of(g),
    ensures
        refines(disk_child(f, child, addr), disk_child(g, child, addr)),
    decreases addr, 0nat,
{
    match child {
        Some(c) => {
            if c < addr {
                lemma_disk_tree_extends(f, g, c);
            }
        },
        None => {},
    }
}

/// Whether two files are equally long and hold the same data region.
pub open spec fn same_data(f: Seq<u8>, g: Seq<u8>) -> bool {
    &&& f.len() == g.len()
    &&& forall|i: int| SUPERBLOCK <= i < f.len() ==> f[i] == g[i]
}

/// A record depends on the data region alone: what the superblock holds
/// does not change it.
pub proof fn lemma_record_same_data(f: Seq<u8>, g: Seq<u8>, addr: u64)
    requires
        same_data(f, g),
    ensures
        record_at(g, addr) == record_at(f, addr),
        value_at(g, addr) == value_at(f, addr),
{
    if addr_ok(f, addr) {
        assert(g.skip(addr as int) =~= f.skip(addr as int));
    }
}

/// A tree on the file depends on the data region alone.
pub proof fn lemma_disk_tree_same_data(f: Seq<u8>, g: Seq<u8>, addr: u64)
    requires
        same_data(f, g),
    ensures
        disk_tree(g, addr) == disk_tree(f, addr),
    decreases addr,
{
    lemma_record_same_data(f, g, addr);
    match record_at(f, addr) {
        Some(record) => {
            lemma_record_same_data(f, g, record.value_addr->0);
            match record.left_addr {
                Some(l) => {
                    if l < addr {
                        lemma_disk_tree_same_data(f, g, l);
                    }
                },
                None => {},
            }
            match record.right_addr {
                Some(r) => {
                    if r < addr {
                        lemma_disk_tree_same_data(f, g, r);
                    }
                },
                None => {},
            }
        },
        None => {},
    }
}

/// The tree that the file `f` holds under the root that its superblock
/// records. There is none where the superblock holds no record, or
/// records a root outside the data region.
pub open spec fn committed(f: Seq<u8>) -> Result<Tree, DbError> {
    match root_of(f) {
        Some(Some(a)) => if addr_ok(f, a) {
            Ok(disk_tree(f, a))
        } else {
            Err(DbError::Codec)
        },
        Some(None) => Ok(Tree::Empty),
        None => Err(DbError::Codec),
    }
}

/// What a handle that is outside a transaction answers for the key `k`,
/// given the file `f`: the answer of the tree that the file holds.
pub open spec fn observed(f: Seq<u8>, k: Seq<char>) -> Result<Option<Seq<char>>, DbError> {
    match committed(f) {
        Ok(t) => tree_get(t, k),
        Err(e) => Err(e),
    }
}

/// Whether the file `g` holds all of the data region of the file `f`,
/// byte for byte: `f` may have grown at its end and changed in its
/// superblock, and in no other way.
pub open spec fn appended(f: Seq<u8>, g: Seq<u8>) -> bool {
    &&& f.len() <= g.len()
    &&& forall|i: int| SUPERBLOCK <= i < f.len() ==> g[i] == f[i]
}

/// A file that only grew at its end records the root that it recorded
/// before.
pub proof fn lemma_root_extends(f: Seq<u8>, g: Seq<u8>)
    requires
        f.is_prefix_of(g),
        f.len() >= SUPERBLOCK,
    ensures
        root_of(g) == root_of(f),
        appended(f, g),
{
    assert(g.subrange(1, 9) =~= f.subrange(1, 9));
    assert(g[0] == f[0]);
}

} // verus!

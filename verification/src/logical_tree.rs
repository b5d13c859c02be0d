//! The persistent tree and the transactions on it.
//!
//! `BinaryTree` is the copy-on-write binary search tree over agents: a
//! change makes the nodes on its way fresh, which sets them up to be
//! written anew, and leaves every other node with the record it has.
//! `LogicalTree` is the handle that callers use: it takes the view of a
//! transaction from the file, and publishes the changes of a transaction
//! by writing the fresh nodes and then the new root.

use vstd::prelude::*;
use crate::agent::{
    agent_addr, lemma_agent_not_empty, lemma_fresh_encodable, lemma_same_data,
    lemma_stored_encodable, lemma_synced, lemma_writable, subtree, subtree_encodable,
    subtree_stored, subtree_wf, StringAgent, TreeNode, TreeNodeAgent,
};
use crate::disk::{
    addr_ok, appended, committed, disk_tree, lemma_disk_tree_same_data, lemma_root_extends,
    observed, same_data,
};
use crate::error::DbError;
use crate::storage::{opened, root_of, FileStorage, SUPERBLOCK};
use crate::tree::{
    compare_keys, count, delete_writable, delmin_writable, insert_writable, intact, key_order,
    lemma_delmin_keeps_order, lemma_delmin_keeps_sizes, lemma_insert_keeps_order,
    lemma_insert_keeps_sizes, lemma_insert_outcome, lemma_insert_then_get, lemma_keeps_intact,
    lemma_remove_keeps_sizes, sized, lemma_refines_get, lemma_refines_intact, lemma_refines_same,
    lemma_remove_keeps_order, ordered, refines, remove_writable, tree_delete, tree_delmin,
    tree_find, tree_get, tree_insert, tree_remove, writable, KeyOrder, Tree,
};

verus! {

/// Whether `node` has the key, the size and the value agent of the node
/// of `agent`.
pub open spec fn same_entry(agent: TreeNodeAgent, f: Seq<u8>, node: TreeNode) -> bool {
    &&& agent.inner matches Some(held) ==> node.key == held.key
    &&& node.key@ == agent.record(f).key
    &&& node.size == agent.record(f).size
    &&& node.value_agent == agent.value_of(f)
}

/// Whether the agent graph `after` is the graph `before` after a search
/// for `k`: every agent on the way of the search holds its node, down to
/// the first one whose node cannot be had, and every other agent is as it
/// was. No address changes, and no node that was held is replaced.
pub open spec fn searched(
    before: Option<Box<TreeNodeAgent>>,
    after: Option<Box<TreeNodeAgent>>,
    f: Seq<u8>,
    k: Seq<char>,
) -> bool
    decreases after,
{
    match after {
        None => before is None,
        Some(b) => {
            &&& before matches Some(a)
            &&& b.addr == a.addr
            &&& match b.inner {
                None => a.inner is None,
                Some(node) => {
                    &&& a.fault(f) is None
                    &&& same_entry(*a, f, *node)
                    &&& match key_order(k, node.key@) {
                        KeyOrder::Less => {
                            &&& searched(a.left_of(f), node.left_agent, f, k)
                            &&& node.right_agent == a.right_of(f)
                        },
                        KeyOrder::Greater => {
                            &&& node.left_agent == a.left_of(f)
                            &&& searched(a.right_of(f), node.right_agent, f, k)
                        },
                        KeyOrder::Equal => {
                            &&& node.left_agent == a.left_of(f)
                            &&& node.right_agent == a.right_of(f)
                        },
                    }
                },
            }
        },
    }
}

/// Whether `agent` is a fresh agent of the text `v`: it holds the text
/// and no address.
pub open spec fn fresh_value(agent: StringAgent, v: Seq<char>) -> bool {
    &&& agent.addr is None
    &&& agent.inner matches Some(s)
    &&& s@ == v
}

/// Whether the agent graph `after` is the graph `before` after `k` was
/// given the value `v`: every agent on the way to the key holds its node
/// and has no address, so that it is written anew; the node of the key
/// has a fresh value agent, or is a fresh leaf where the key is new; and
/// every agent off the way is as it was, with the address and the payload
/// that it had.
pub open spec fn inserted(
    before: Option<Box<TreeNodeAgent>>,
    after: Option<Box<TreeNodeAgent>>,
    f: Seq<u8>,
    k: Seq<char>,
    v: Seq<char>,
) -> bool
    decreases after,
{
    &&& after matches Some(b)
    &&& b.addr is None
    &&& b.inner matches Some(node)
    &&& match before {
        None => {
            &&& node.key@ == k
            &&& node.size == 1
            &&& fresh_value(node.value_agent, v)
            &&& node.left_agent is None
            &&& node.right_agent is None
        },
        Some(a) => {
            &&& a.fault(f) is None
            &&& a.inner matches Some(held) ==> node.key == held.key
            &&& node.key@ == a.record(f).key
            &&& match key_order(k, node.key@) {
                KeyOrder::Less => {
                    &&& node.value_agent == a.value_of(f)
                    &&& inserted(a.left_of(f), node.left_agent, f, k, v)
                    &&& node.right_agent == a.right_of(f)
                },
                KeyOrder::Greater => {
                    &&& node.value_agent == a.value_of(f)
                    &&& node.left_agent == a.left_of(f)
                    &&& inserted(a.right_of(f), node.right_agent, f, k, v)
                },
                KeyOrder::Equal => {
                    &&& node.size == a.record(f).size
                    &&& fresh_value(node.value_agent, v)
                    &&& node.left_agent == a.left_of(f)
                    &&& node.right_agent == a.right_of(f)
                },
            }
        },
    }
}

/// A search for a key before the key is given a value changes nothing in
/// what the insertion leaves: the search only loads nodes that the
/// insertion loads as well.
pub proof fn lemma_searched_inserted(
    before: Option<Box<TreeNodeAgent>>,
    between: Option<Box<TreeNodeAgent>>,
    after: Option<Box<TreeNodeAgent>>,
    f: Seq<u8>,
    k: Seq<char>,
    v: Seq<char>,
)
    requires
        searched(before, between, f, k),
        inserted(between, after, f, k, v),
    ensures
        inserted(before, after, f, k, v),
    decreases after,
{
    match between {
        Some(b) => {
            let a = before->0;
            let node = after->0.inner->0;
            match b.inner {
                Some(mid) => {
                    match key_order(k, node.key@) {
                        KeyOrder::Less => {
                            lemma_searched_inserted(
                                a.left_of(f),
                                mid.left_agent,
                                node.left_agent,
                                f,
                                k,
                                v,
                            );
                        },
                        KeyOrder::Greater => {
                            lemma_searched_inserted(
                                a.right_of(f),
                                mid.right_agent,
                                node.right_agent,
                                f,
                                k,
                                v,
                            );
                        },
                        KeyOrder::Equal => {},
                    }
                },
                None => {
                    assert(*b == *a);
                },
            }
        },
        None => {},
    }
}

/// Whether the agent graph `after` is the graph `before` after a walk
/// down its left spine: every agent on the spine holds its node, down to
/// the first one whose node cannot be had, and every other agent is as it
/// was.
pub open spec fn descended(
    before: Option<Box<TreeNodeAgent>>,
    after: Option<Box<TreeNodeAgent>>,
    f: Seq<u8>,
) -> bool
    decreases after,
{
    match after {
        None => before is None,
        Some(b) => {
            &&& before matches Some(a)
            &&& b.addr == a.addr
            &&& match b.inner {
                None => a.inner is None,
                Some(node) => {
                    &&& a.fault(f) is None
                    &&& same_entry(*a, f, *node)
                    &&& descended(a.left_of(f), node.left_agent, f)
                    &&& node.right_agent == a.right_of(f)
                },
            }
        },
    }
}

/// Whether the agent graph `after` is the graph `before` after a search
/// for `k` that went on, at the node of `k`, down the left spine of the
/// right subtree, as a deletion does.
pub open spec fn probed(
    before: Option<Box<TreeNodeAgent>>,
    after: Option<Box<TreeNodeAgent>>,
    f: Seq<u8>,
    k: Seq<char>,
) -> bool
    decreases after,
{
    match after {
        None => before is None,
        Some(b) => {
            &&& before matches Some(a)
            &&& b.addr == a.addr
            &&& match b.inner {
                None => a.inner is None,
                Some(node) => {
                    &&& a.fault(f) is None
                    &&& same_entry(*a, f, *node)
                    &&& match key_order(k, node.key@) {
                        KeyOrder::Less => {
                            &&& probed(a.left_of(f), node.left_agent, f, k)
                            &&& node.right_agent == a.right_of(f)
                        },
                        KeyOrder::Greater => {
                            &&& node.left_agent == a.left_of(f)
                            &&& probed(a.right_of(f), node.right_agent, f, k)
                        },
                        KeyOrder::Equal => {
                            &&& node.left_agent == a.left_of(f)
                            &&& descended(a.right_of(f), node.right_agent, f)
                        },
                    }
                },
            }
        },
    }
}

/// A walk that loads nothing leaves the graph as it is.
pub proof fn lemma_descended_same(agent: Option<Box<TreeNodeAgent>>, f: Seq<u8>)
    requires
        subtree_wf(agent, f),
    ensures
        descended(agent, agent, f),
    decreases agent,
{
    match agent {
        Some(a) => match a.inner {
            Some(node) => {
                lemma_descended_same(node.left_agent, f);
            },
            None => {},
        },
        None => {},
    }
}

/// A search that loads nothing leaves the graph as it is.
pub proof fn lemma_probed_same(agent: Option<Box<TreeNodeAgent>>, f: Seq<u8>, k: Seq<char>)
    requires
        subtree_wf(agent, f),
    ensures
        probed(agent, agent, f, k),
    decreases agent,
{
    match agent {
        Some(a) => match a.inner {
            Some(node) => {
                lemma_probed_same(node.left_agent, f, k);
                lemma_probed_same(node.right_agent, f, k);
                lemma_descended_same(node.right_agent, f);
            },
            None => {},
        },
        None => {},
    }
}

/// Whether the agent graph `after` is the graph `before` after its least
/// key left with the key `key` and the value agent `value`: every agent
/// on the left spine above the node that left holds its node and has no
/// address, so that it is written anew; the right child of the node that
/// left stands in its place; and every other agent is as it was.
pub open spec fn least_taken(
    before: Option<Box<TreeNodeAgent>>,
    after: Option<Box<TreeNodeAgent>>,
    f: Seq<u8>,
    key: Seq<char>,
    value: StringAgent,
) -> bool
    decreases after,
{
    &&& before matches Some(a)
    &&& a.fault(f) is None
    &&& if a.left_of(f) is None {
        &&& after == a.right_of(f)
        &&& key == a.record(f).key
        &&& value == a.value_of(f)
    } else {
        &&& after matches Some(b)
        &&& b.addr is None
        &&& b.inner matches Some(node)
        &&& a.inner matches Some(held) ==> node.key == held.key
        &&& node.key@ == a.record(f).key
        &&& node.value_agent == a.value_of(f)
        &&& least_taken(a.left_of(f), node.left_agent, f, key, value)
        &&& node.right_agent == a.right_of(f)
    }
}

/// Whether the agent graph `after` is the graph `before` after `k` left:
/// every agent on the way to the key holds its node and has no address,
/// so that it is written anew; the node of the key is replaced by its one
/// child, or takes the least key of its right subtree with the agent of
/// that key's value; and every agent off the way is as it was, with the
/// address and the payload that it had.
pub open spec fn deleted(
    before: Option<Box<TreeNodeAgent>>,
    after: Option<Box<TreeNodeAgent>>,
    f: Seq<u8>,
    k: Seq<char>,
) -> bool
    decreases after,
{
    match before {
        None => after is None,
        Some(a) => {
            &&& a.fault(f) is None
            &&& match key_order(k, a.record(f).key) {
                KeyOrder::Less => {
                    &&& after matches Some(b)
                    &&& b.addr is None
                    &&& b.inner matches Some(node)
                    &&& a.inner matches Some(held) ==> node.key == held.key
                    &&& node.key@ == a.record(f).key
                    &&& node.value_agent == a.value_of(f)
                    &&& deleted(a.left_of(f), node.left_agent, f, k)
                    &&& node.right_agent == a.right_of(f)
                },
                KeyOrder::Greater => {
                    &&& after matches Some(b)
                    &&& b.addr is None
                    &&& b.inner matches Some(node)
                    &&& a.inner matches Some(held) ==> node.key == held.key
                    &&& node.key@ == a.record(f).key
                    &&& node.value_agent == a.value_of(f)
                    &&& node.left_agent == a.left_of(f)
                    &&& deleted(a.right_of(f), node.right_agent, f, k)
                },
                KeyOrder::Equal => if a.left_of(f) is Some && a.right_of(f) is Some {
                    &&& after matches Some(b)
                    &&& b.addr is None
                    &&& b.inner matches Some(node)
                    &&& node.left_agent == a.left_of(f)
                    &&& least_taken(
                        a.right_of(f),
                        node.right_agent,
                        f,
                        node.key@,
                        node.value_agent,
                    )
                } else if a.left_of(f) is Some {
                    after == a.left_of(f)
                } else {
                    after == a.right_of(f)
                },
            }
        },
    }
}

/// A search for a key before the key leaves changes nothing in what the
/// deletion leaves: the search only loads nodes that the deletion loads
/// as well.
pub proof fn lemma_searched_deleted(
    before: Option<Box<TreeNodeAgent>>,
    between: Option<Box<TreeNodeAgent>>,
    after: Option<Box<TreeNodeAgent>>,
    f: Seq<u8>,
    k: Seq<char>,
)
    requires
        searched(before, between, f, k),
        deleted(between, after, f, k),
    ensures
        deleted(before, after, f, k),
    decreases after,
{
    match between {
        Some(b) => {
            let a = before->0;
            match b.inner {
                Some(mid) => {
                    match key_order(k, mid.key@) {
                        KeyOrder::Less => {
                            lemma_searched_deleted(
                                a.left_of(f),
                                mid.left_agent,
                                after->0.inner->0.left_agent,
                                f,
                                k,
                            );
                        },
                        KeyOrder::Greater => {
                            lemma_searched_deleted(
                                a.right_of(f),
                                mid.right_agent,
                                after->0.inner->0.right_agent,
                                f,
                                k,
                            );
                        },
                        KeyOrder::Equal => {},
                    }
                },
                None => {
                    assert(*b == *a);
                },
            }
        },
        None => {},
    }
}

/// A search for a key before a deletion fails changes nothing in what
/// the failed deletion leaves.
pub proof fn lemma_searched_probed(
    before: Option<Box<TreeNodeAgent>>,
    between: Option<Box<TreeNodeAgent>>,
    after: Option<Box<TreeNodeAgent>>,
    f: Seq<u8>,
    k: Seq<char>,
)
    requires
        searched(before, between, f, k),
        probed(between, after, f, k),
    ensures
        probed(before, after, f, k),
    decreases after,
{
    match after {
        Some(c) => {
            let a = before->0;
            let b = between->0;
            match b.inner {
                Some(mid) => {
                    let node = c.inner->0;
                    match key_order(k, mid.key@) {
                        KeyOrder::Less => {
                            lemma_searched_probed(
                                a.left_of(f),
                                mid.left_agent,
                                node.left_agent,
                                f,
                                k,
                            );
                        },
                        KeyOrder::Greater => {
                            lemma_searched_probed(
                                a.right_of(f),
                                mid.right_agent,
                                node.right_agent,
                                f,
                                k,
                            );
                        },
                        KeyOrder::Equal => {},
                    }
                },
                None => {
                    assert(*b == *a);
                },
            }
        },
        None => {},
    }
}

/// The binary search tree: the agent of its root, if it has one.
pub struct BinaryTree {
    root: Option<Box<TreeNodeAgent>>,
}

impl BinaryTree {
    /// The tree that the agent graph stands for, given the file `f`.
    pub closed spec fn tree(self, f: Seq<u8>) -> Tree {
        subtree(self.root, f)
    }

    /// Every agent of the graph is well formed, given the file `f`.
    pub closed spec fn wf(self, f: Seq<u8>) -> bool {
        subtree_wf(self.root, f)
    }

    /// The address of the root's record, if the root has one.
    pub closed spec fn root_addr(self) -> Option<u64> {
        agent_addr(self.root)
    }

    /// Whether the fresh nodes of the tree can be written to the file.
    pub closed spec fn encodable(self) -> bool {
        subtree_encodable(self.root)
    }

    /// Whether the tree has no fresh nodes: nothing is left to store.
    pub closed spec fn stored(self) -> bool {
        subtree_stored(self.root)
    }

    /// Whether `after` is this tree after a search for `k`: the agents on
    /// the way of the search hold their nodes, and every other agent is
    /// as it was.
    pub closed spec fn searched(self, after: BinaryTree, f: Seq<u8>, k: Seq<char>) -> bool {
        searched(self.root, after.root, f, k)
    }

    /// Whether `after` is this tree after `k` was given the value `v`:
    /// the agents on the way to the key are fresh, and every other agent
    /// is as it was.
    pub closed spec fn inserted(
        self,
        after: BinaryTree,
        f: Seq<u8>,
        k: Seq<char>,
        v: Seq<char>,
    ) -> bool {
        inserted(self.root, after.root, f, k, v)
    }

    /// Whether `after` is this tree after `k` left: the agents on the way
    /// to the key are fresh, and every other agent is as it was.
    pub closed spec fn deleted(self, after: BinaryTree, f: Seq<u8>, k: Seq<char>) -> bool {
        deleted(self.root, after.root, f, k)
    }

    /// Whether `after` is this tree after a deletion of `k` that failed:
    /// the agents on the way that the deletion went hold their nodes, and
    /// every other agent is as it was.
    pub closed spec fn probed(self, after: BinaryTree, f: Seq<u8>, k: Seq<char>) -> bool {
        probed(self.root, after.root, f, k)
    }

    /// Searches the subtree of `agent` for `key`, loading the nodes that
    /// the search passes, and returns an agent for the value of the node
    /// that has the key.
    fn _find(agent: &mut Option<Box<TreeNodeAgent>>, key: &str, storage: &FileStorage) -> (r:
        Result<Option<StringAgent>, DbError>)
        requires
            subtree_wf(*old(agent), storage@),
        ensures
            subtree_wf(*final(agent), storage@),
            subtree(*final(agent), storage@) == subtree(*old(agent), storage@),
            agent_addr(*final(agent)) == agent_addr(*old(agent)),
            subtree_stored(*old(agent)) ==> subtree_stored(*final(agent)),
            searched(*old(agent), *final(agent), storage@, key@),
            match tree_find(subtree(*old(agent), storage@), key@) {
                Ok(Some(value)) => r matches Ok(Some(found)) && found.wf(storage@) && found.text(
                    storage@,
                ) == value,
                Ok(None) => r matches Ok(None),
                Err(e) => r matches Err(x) && x == e,
            },
        decreases subtree(*old(agent), storage@),
    {
        match agent {
            None => Ok(None),
            Some(a) => {
                match a.load(storage) {
                    Ok(()) => {},
                    Err(e) => { return Err(e); },
                }
                match &mut a.inner {
                    None => Err(DbError::Invariant),
                    Some(node) => match compare_keys(key, node.key.as_str()) {
                        KeyOrder::Less => Self::_find(&mut node.left_agent, key, storage),
                        KeyOrder::Greater => Self::_find(&mut node.right_agent, key, storage),
                        KeyOrder::Equal => Ok(Some(node.value_agent.clone())),
                    },
                }
            },
        }
    }

    /// Whether the subtree of `agent` holds `key`, for a node above it that
    /// cannot count one key more: a key that is held can still be given a
    /// new value, a key that is not held cannot be added.
    fn _held(agent: &mut Option<Box<TreeNodeAgent>>, key: &str, storage: &FileStorage) -> (r:
        Result<(), DbError>)
        requires
            subtree_wf(*old(agent), storage@),
        ensures
            subtree_wf(*final(agent), storage@),
            subtree(*final(agent), storage@) == subtree(*old(agent), storage@),
            agent_addr(*final(agent)) == agent_addr(*old(agent)),
            subtree_stored(*old(agent)) ==> subtree_stored(*final(agent)),
            searched(*old(agent), *final(agent), storage@, key@),
            r == (match tree_find(subtree(*old(agent), storage@), key@) {
                Ok(Some(_)) => Ok::<(), DbError>(()),
                Ok(None) => Err::<(), DbError>(DbError::Invariant),
                Err(e) => Err::<(), DbError>(e),
            }),
    {
        match Self::_find(agent, key, storage) {
            Ok(Some(_)) => Ok(()),
            Ok(None) => Err(DbError::Invariant),
            Err(e) => Err(e),
        }
    }

    /// Gives `key` the value `value` in the subtree of `agent` and returns
    /// by how much the number of keys grew. The nodes on the way to the
    /// key become fresh nodes, which have no address yet; all others stay
    /// as they are.
    fn _insert(
        agent: &mut Option<Box<TreeNodeAgent>>,
        key: String,
        value: String,
        storage: &FileStorage,
    ) -> (r: Result<usize, DbError>)
        requires
            subtree_wf(*old(agent), storage@),
        ensures
            subtree_wf(*final(agent), storage@),
            subtree_stored(*old(agent)) && r is Ok ==> (subtree_encodable(*final(agent))
                <==> insert_writable(subtree(*old(agent), storage@), key@, value@)),
            r is Ok ==> inserted(*old(agent), *final(agent), storage@, key@, value@),
            r is Err ==> searched(*old(agent), *final(agent), storage@, key@),
            r matches Ok(d) ==> d == (if tree_find(subtree(*old(agent), storage@), key@) matches Ok(
                Some(_),
            ) {
                0nat
            } else {
                1nat
            }),
            r matches Ok(d) ==> (sized(subtree(*old(agent), storage@)) ==> {
                &&& sized(subtree(*final(agent), storage@))
                &&& count(subtree(*final(agent), storage@)) == count(
                    subtree(*old(agent), storage@),
                ) + d
            }),
            r is Ok && ordered(subtree(*old(agent), storage@)) ==> ordered(
                subtree(*final(agent), storage@),
            ),
            match tree_insert(subtree(*old(agent), storage@), key@, value@) {
                Ok((t, d)) => r == Ok::<usize, DbError>(d) && d <= 1 && subtree(
                    *final(agent),
                    storage@,
                ) == t,
                Err(e) => r == Err::<usize, DbError>(e) && subtree(*final(agent), storage@)
                    == subtree(*old(agent), storage@) && agent_addr(*final(agent)) == agent_addr(
                    *old(agent),
                ),
            },
        decreases subtree(*old(agent), storage@),
    {
        proof {
            let t = subtree(*agent, storage@);
            lemma_insert_outcome(t, key@, value@);
            if sized(t) {
                lemma_insert_keeps_sizes(t, key@, value@);
            }
            if ordered(t) {
                lemma_insert_keeps_order(t, key@, value@);
            }
        }
        match agent {
            None => {
                *agent = Some(Box::new(TreeNodeAgent::new(Some(TreeNode::new(key, value)), None)));
                proof {
                    lemma_fresh_encodable(*agent);
                }
                Ok(1)
            },
            Some(a) => {
                match a.load(storage) {
                    Ok(()) => {},
                    Err(e) => { return Err(e); },
                }
                let ghost was_stored = a.stored();
                let r = match &mut a.inner {
                    None => Err(DbError::Invariant),
                    Some(node) => {
                        proof {
                            if was_stored {
                                lemma_stored_encodable(node.left_agent);
                                lemma_stored_encodable(node.right_agent);
                            }
                        }
                        match compare_keys(key.as_str(), node.key.as_str()) {
                            KeyOrder::Less => {
                                let ghost child = node.left_agent;
                                let room = if node.size == usize::MAX {
                                    Self::_held(&mut node.left_agent, key.as_str(), storage)
                                } else {
                                    Ok(())
                                };
                                let ghost searched_child = node.left_agent;
                                proof {
                                    lemma_insert_outcome(
                                        subtree(node.left_agent, storage@),
                                        key@,
                                        value@,
                                    );
                                    if was_stored {
                                        lemma_stored_encodable(node.left_agent);
                                    }
                                }
                                match room {
                                    Ok(()) => match Self::_insert(
                                        &mut node.left_agent,
                                        key,
                                        value,
                                        storage,
                                    ) {
                                        Ok(size_delta) => {
                                            proof {
                                                if child != searched_child {
                                                    lemma_searched_inserted(
                                                        child,
                                                        searched_child,
                                                        node.left_agent,
                                                        storage@,
                                                        key@,
                                                        value@,
                                                    );
                                                }
                                            }
                                            node.size = node.size + size_delta;
                                            Ok(size_delta)
                                        },
                                        Err(e) => Err(e),
                                    },
                                    Err(e) => Err(e),
                                }
                            },
                            KeyOrder::Greater => {
                                let ghost child = node.right_agent;
                                let room = if node.size == usize::MAX {
                                    Self::_held(&mut node.right_agent, key.as_str(), storage)
                                } else {
                                    Ok(())
                                };
                                let ghost searched_child = node.right_agent;
                                proof {
                                    lemma_insert_outcome(
                                        subtree(node.right_agent, storage@),
                                        key@,
                                        value@,
                                    );
                                    if was_stored {
                                        lemma_stored_encodable(node.right_agent);
                                    }
                                }
                                match room {
                                    Ok(()) => match Self::_insert(
                                        &mut node.right_agent,
                                        key,
                                        value,
                                        storage,
                                    ) {
                                        Ok(size_delta) => {
                                            proof {
                                                if child != searched_child {
                                                    lemma_searched_inserted(
                                                        child,
                                                        searched_child,
                                                        node.right_agent,
                                                        storage@,
                                                        key@,
                                                        value@,
                                                    );
                                                }
                                            }
                                            node.size = node.size + size_delta;
                                            Ok(size_delta)
                                        },
                                        Err(e) => Err(e),
                                    },
                                    Err(e) => Err(e),
                                }
                            },
                            KeyOrder::Equal => {
                                node.value_agent = StringAgent::new(Some(value), None);
                                Ok(0)
                            },
                        }
                    },
                };
                if r.is_ok() {
                    a.addr = None;
                }
                proof {
                    if r is Ok {
                        lemma_fresh_encodable(*agent);
                    }
                }
                r
            },
        }
    }

    /// Takes the least key out of the subtree of `agent` and returns it
    /// with the agent of its value.
    fn _delmin(agent: &mut Option<Box<TreeNodeAgent>>, storage: &FileStorage) -> (r: Result<
        (String, StringAgent),
        DbError,
    >)
        requires
            subtree_wf(*old(agent), storage@),
            *old(agent) is Some,
        ensures
            subtree_wf(*final(agent), storage@),
            subtree_stored(*old(agent)) ==> (r matches Ok((_, value_agent)) ==> value_agent.addr
                is Some && (subtree_encodable(*final(agent)) <==> delmin_writable(
                subtree(*old(agent), storage@),
            ))),
            r matches Ok((key, value_agent)) ==> least_taken(
                *old(agent),
                *final(agent),
                storage@,
                key@,
                value_agent,
            ),
            r is Err ==> descended(*old(agent), *final(agent), storage@),
            r is Ok && sized(subtree(*old(agent), storage@)) ==> {
                &&& sized(subtree(*final(agent), storage@))
                &&& count(subtree(*final(agent), storage@)) + 1 == count(
                    subtree(*old(agent), storage@),
                )
            },
            r is Ok && ordered(subtree(*old(agent), storage@)) && intact(
                subtree(*old(agent), storage@),
            ) ==> ordered(subtree(*final(agent), storage@)) && intact(
                subtree(*final(agent), storage@),
            ),
            match tree_delmin(subtree(*old(agent), storage@)) {
                Ok((t, min_key, min_value)) => r matches Ok((key, value_agent)) && key@ == min_key
                    && value_agent.text(storage@) == min_value && value_agent.wf(storage@)
                    && subtree(*final(agent), storage@) == t,
                Err(e) => r matches Err(x) && x == e && subtree(*final(agent), storage@)
                    == subtree(*old(agent), storage@) && agent_addr(*final(agent)) == agent_addr(
                    *old(agent),
                ),
            },
        decreases subtree(*old(agent), storage@),
    {
        proof {
            let t = subtree(*agent, storage@);
            if sized(t) {
                lemma_delmin_keeps_sizes(t);
            }
            if ordered(t) && intact(t) {
                lemma_delmin_keeps_order(t);
            }
        }
        let mut boxed = match agent.take() {
            Some(boxed) => boxed,
            None => { return Err(DbError::Invariant); },
        };
        match boxed.load(storage) {
            Ok(()) => {},
            Err(e) => {
                *agent = Some(boxed);
                return Err(e);
            },
        }
        let TreeNodeAgent { inner, addr } = *boxed;
        let mut node = match inner {
            Some(node) => node,
            None => {
                *agent = Some(Box::new(TreeNodeAgent { inner: None, addr }));
                return Err(DbError::Invariant);
            },
        };
        let ghost was_stored = subtree_stored(*old(agent));
        proof {
            if node.left_agent is Some {
                lemma_agent_not_empty(*node.left_agent->0, storage@);
            }
            if was_stored {
                lemma_stored_encodable(node.left_agent);
                lemma_stored_encodable(node.right_agent);
            }
        }
        if node.left_agent.is_none() {
            let TreeNode { key, size, value_agent, left_agent, right_agent } = *node;
            *agent = right_agent;
            Ok((key, value_agent))
        } else if node.size == 0 {
            proof {
                lemma_descended_same(node.left_agent, storage@);
            }
            *agent = Some(Box::new(TreeNodeAgent { inner: Some(node), addr }));
            Err(DbError::Invariant)
        } else {
            match Self::_delmin(&mut node.left_agent, storage) {
                Ok(found) => {
                    node.size = node.size - 1;
                    *agent = Some(Box::new(TreeNodeAgent { inner: Some(node), addr: None }));
                    proof {
                        lemma_fresh_encodable(*agent);
                    }
                    Ok(found)
                },
                Err(e) => {
                    *agent = Some(Box::new(TreeNodeAgent { inner: Some(node), addr }));
                    Err(e)
                },
            }
        }
    }

    /// Takes `key` out of the subtree of `agent`. The nodes on the way to
    /// the key become fresh nodes, which have no address yet.
    fn _delete(agent: &mut Option<Box<TreeNodeAgent>>, key: &str, storage: &FileStorage) -> (r:
        Result<(), DbError>)
        requires
            subtree_wf(*old(agent), storage@),
        ensures
            subtree_wf(*final(agent), storage@),
            subtree_stored(*old(agent)) && r is Ok ==> (subtree_encodable(*final(agent))
                <==> delete_writable(subtree(*old(agent), storage@), key@)),
            r is Ok ==> deleted(*old(agent), *final(agent), storage@, key@),
            r is Err ==> probed(*old(agent), *final(agent), storage@, key@),
            r is Ok && (tree_find(subtree(*old(agent), storage@), key@) matches Ok(Some(_))) ==> {
                &&& sized(subtree(*old(agent), storage@)) ==> sized(
                    subtree(*final(agent), storage@),
                ) && count(subtree(*final(agent), storage@)) + 1 == count(
                    subtree(*old(agent), storage@),
                )
                &&& ordered(subtree(*old(agent), storage@)) && intact(
                    subtree(*old(agent), storage@),
                ) ==> ordered(subtree(*final(agent), storage@)) && intact(
                    subtree(*final(agent), storage@),
                ) && tree_get(subtree(*final(agent), storage@), key@) == Ok::<
                    Option<Seq<char>>,
                    DbError,
                >(None)
            },
            match tree_delete(subtree(*old(agent), storage@), key@) {
                Ok(t) => r is Ok && subtree(*final(agent), storage@) == t,
                Err(e) => r == Err::<(), DbError>(e) && subtree(*final(agent), storage@)
                    == subtree(*old(agent), storage@) && agent_addr(*final(agent)) == agent_addr(
                    *old(agent),
                ),
            },
        decreases subtree(*old(agent), storage@),
    {
        proof {
            let t = subtree(*agent, storage@);
            if sized(t) {
                lemma_remove_keeps_sizes(t, key@);
            }
            if ordered(t) && intact(t) {
                lemma_remove_keeps_order(t, key@);
            }
        }
        let mut boxed = match agent.take() {
            Some(boxed) => boxed,
            None => { return Ok(()); },
        };
        match boxed.load(storage) {
            Ok(()) => {},
            Err(e) => {
                *agent = Some(boxed);
                return Err(e);
            },
        }
        let TreeNodeAgent { inner, addr } = *boxed;
        let mut node = match inner {
            Some(node) => node,
            None => {
                *agent = Some(Box::new(TreeNodeAgent { inner: None, addr }));
                return Err(DbError::Invariant);
            },
        };
        if node.size == 0 {
            proof {
                lemma_probed_same(node.left_agent, storage@, key@);
                lemma_probed_same(node.right_agent, storage@, key@);
                lemma_descended_same(node.right_agent, storage@);
            }
            *agent = Some(Box::new(TreeNodeAgent { inner: Some(node), addr }));
            return Err(DbError::Invariant);
        }
        let ghost was_stored = subtree_stored(*old(agent));
        proof {
            if was_stored {
                lemma_stored_encodable(node.left_agent);
                lemma_stored_encodable(node.right_agent);
            }
        }
        match compare_keys(key, node.key.as_str()) {
            KeyOrder::Less => match Self::_delete(&mut node.left_agent, key, storage) {
                Ok(()) => {
                    node.size = node.size - 1;
                    *agent = Some(Box::new(TreeNodeAgent { inner: Some(node), addr: None }));
                    proof {
                        lemma_fresh_encodable(*agent);
                    }
                    Ok(())
                },
                Err(e) => {
                    *agent = Some(Box::new(TreeNodeAgent { inner: Some(node), addr }));
                    Err(e)
                },
            },
            KeyOrder::Greater => match Self::_delete(&mut node.right_agent, key, storage) {
                Ok(()) => {
                    node.size = node.size - 1;
                    *agent = Some(Box::new(TreeNodeAgent { inner: Some(node), addr: None }));
                    proof {
                        lemma_fresh_encodable(*agent);
                    }
                    Ok(())
                },
                Err(e) => {
                    *agent = Some(Box::new(TreeNodeAgent { inner: Some(node), addr }));
                    Err(e)
                },
            },
            KeyOrder::Equal => {
                proof {
                    if node.left_agent is Some {
                        lemma_agent_not_empty(*node.left_agent->0, storage@);
                    }
                    if node.right_agent is Some {
                        lemma_agent_not_empty(*node.right_agent->0, storage@);
                    }
                }
                if node.left_agent.is_some() && node.right_agent.is_some() {
                    match Self::_delmin(&mut node.right_agent, storage) {
                        Ok((min_key, min_value)) => {
                            node.key = min_key;
                            node.value_agent = min_value;
                            node.size = node.size - 1;
                            *agent = Some(
                                Box::new(TreeNodeAgent { inner: Some(node), addr: None }),
                            );
                            proof {
                                lemma_fresh_encodable(*agent);
                            }
                            Ok(())
                        },
                        Err(e) => {
                            *agent = Some(Box::new(TreeNodeAgent { inner: Some(node), addr }));
                            Err(e)
                        },
                    }
                } else if node.left_agent.is_some() {
                    let TreeNode { key, size, value_agent, left_agent, right_agent } = *node;
                    *agent = left_agent;
                    Ok(())
                } else {
                    let TreeNode { key, size, value_agent, left_agent, right_agent } = *node;
                    *agent = right_agent;
                    Ok(())
                }
            },
        }
    }

    /// A tree without nodes.
    pub fn new() -> (r: Result<BinaryTree, DbError>)
        ensures
            r matches Ok(tree) && tree.stored() && tree.root_addr() is None && forall|f: Seq<u8>|
                #![auto]
                tree.wf(f) && tree.tree(f) == Tree::Empty,
    {
        Ok(BinaryTree { root: None })
    }

    /// Makes the tree the one whose root record stands at `addr`. What
    /// the tree was before is dropped, changes that were not stored
    /// included.
    pub fn change_view(&mut self, addr: u64) -> (r: Result<(), DbError>)
        ensures
            r is Ok,
            final(self).root_addr() == Some(addr),
            final(self).stored(),
            forall|f: Seq<u8>| #![auto] final(self).tree(f) == disk_tree(f, addr),
            forall|f: Seq<u8>| #![auto] addr_ok(f, addr) ==> final(self).wf(f),
    {
        self.root = Some(Box::new(TreeNodeAgent::new(None, Some(addr))));
        Ok(())
    }

    /// Writes the fresh nodes of the tree to the end of the file and
    /// returns the address of the root's record; `None` for the empty
    /// tree.
    pub fn store(&mut self, storage: &mut FileStorage) -> (r: Result<Option<u64>, DbError>)
        requires
            old(self).wf(old(storage)@),
            old(storage).wf(),
        ensures
            final(storage).wf(),
            old(storage)@.is_prefix_of(final(storage)@),
            final(self).wf(final(storage)@),
            refines(old(self).tree(old(storage)@), final(self).tree(final(storage)@)),
            r == (if old(self).encodable() {
                Ok::<Option<u64>, DbError>(final(self).root_addr())
            } else {
                Err::<Option<u64>, DbError>(DbError::Codec)
            }),
            r matches Ok(Some(addr)) ==> addr_ok(final(storage)@, addr) && disk_tree(
                final(storage)@,
                addr,
            ) == final(self).tree(final(storage)@),
            r matches Ok(None) ==> final(self).tree(final(storage)@) == Tree::Empty,
            r is Ok ==> final(self).stored(),
            old(self).stored() ==> {
                &&& r == Ok::<Option<u64>, DbError>(old(self).root_addr())
                &&& *final(self) == *old(self)
                &&& final(storage)@ == old(storage)@
            },
    {
        proof {
            if subtree_stored(self.root) {
                lemma_stored_encodable(self.root);
            }
        }
        match &mut self.root {
            Some(root) => {
                match root.store(storage) {
                    Ok(()) => {},
                    Err(e) => { return Err(e); },
                }
                proof {
                    lemma_synced(**root, storage@);
                }
                Ok(root.addr())
            },
            None => Ok(None),
        }
    }

    /// The value of `key`, or `None` where the tree does not hold the
    /// key.
    pub fn find(&mut self, key: &str, storage: &FileStorage) -> (r: Result<Option<String>, DbError>)
        requires
            old(self).wf(storage@),
        ensures
            final(self).wf(storage@),
            final(self).tree(storage@) == old(self).tree(storage@),
            final(self).root_addr() == old(self).root_addr(),
            old(self).stored() ==> final(self).stored(),
            old(self).searched(*final(self), storage@, key@),
            match tree_get(old(self).tree(storage@), key@) {
                Ok(Some(v)) => r matches Ok(Some(text)) && text@ == v,
                Ok(None) => r matches Ok(None),
                Err(e) => r matches Err(x) && x == e,
            },
    {
        match Self::_find(&mut self.root, key, storage) {
            Ok(Some(mut agent)) => match agent.get(storage) {
                Ok(value_ref) => Ok(Some(value_ref.clone())),
                Err(e) => Err(e),
            },
            Ok(None) => Ok(None),
            Err(e) => Err(e),
        }
    }

    /// Gives `key` the value `value`.
    pub fn insert(&mut self, key: String, value: String, storage: &FileStorage) -> (r: Result<
        (),
        DbError,
    >)
        requires
            old(self).wf(storage@),
        ensures
            final(self).wf(storage@),
            old(self).stored() && r is Ok ==> (final(self).encodable() <==> insert_writable(
                old(self).tree(storage@),
                key@,
                value@,
            )),
            r is Ok ==> old(self).inserted(*final(self), storage@, key@, value@),
            r is Ok && sized(old(self).tree(storage@)) ==> sized(final(self).tree(storage@)),
            r is Ok && ordered(old(self).tree(storage@)) ==> ordered(final(self).tree(storage@)),
            r is Err ==> {
                &&& old(self).searched(*final(self), storage@, key@)
                &&& final(self).root_addr() == old(self).root_addr()
            },
            match tree_insert(old(self).tree(storage@), key@, value@) {
                Ok((t, _)) => r is Ok && final(self).tree(storage@) == t,
                Err(e) => r == Err::<(), DbError>(e) && final(self).tree(storage@) == old(self).tree(
                    storage@,
                ),
            },
    {
        match Self::_insert(&mut self.root, key, value, storage) {
            Ok(_) => Ok(()),
            Err(e) => Err(e),
        }
    }

    /// Takes `key` out of the tree, if the tree holds it.
    pub fn delete(&mut self, key: &str, storage: &FileStorage) -> (r: Result<(), DbError>)
        requires
            old(self).wf(storage@),
        ensures
            final(self).wf(storage@),
            old(self).stored() && r is Ok ==> (final(self).encodable() <==> remove_writable(
                old(self).tree(storage@),
                key@,
            )),
            !(tree_find(old(self).tree(storage@), key@) matches Ok(Some(_))) ==> {
                &&& final(self).root_addr() == old(self).root_addr()
                &&& old(self).stored() ==> final(self).stored()
                &&& old(self).searched(*final(self), storage@, key@)
            },
            r is Ok && sized(old(self).tree(storage@)) ==> sized(final(self).tree(storage@)),
            r is Ok && ordered(old(self).tree(storage@)) && intact(old(self).tree(storage@)) ==> {
                &&& ordered(final(self).tree(storage@))
                &&& intact(final(self).tree(storage@))
                &&& tree_get(final(self).tree(storage@), key@) == Ok::<Option<Seq<char>>, DbError>(
                    None,
                )
            },
            tree_find(old(self).tree(storage@), key@) matches Ok(Some(_)) ==> (if r is Ok {
                old(self).deleted(*final(self), storage@, key@)
            } else {
                old(self).probed(*final(self), storage@, key@) && final(self).root_addr() == old(
                    self,
                ).root_addr()
            }),
            match tree_remove(old(self).tree(storage@), key@) {
                Ok(t) => r is Ok && final(self).tree(storage@) == t,
                Err(e) => r == Err::<(), DbError>(e) && final(self).tree(storage@) == old(self).tree(
                    storage@,
                ),
            },
    {
        proof {
            let t = self.tree(storage@);
            if sized(t) {
                lemma_remove_keeps_sizes(t, key@);
            }
            if ordered(t) && intact(t) {
                lemma_remove_keeps_order(t, key@);
            }
        }
        let found = match Self::_find(&mut self.root, key, storage) {
            Ok(found) => found,
            Err(e) => { return Err(e); },
        };
        if found.is_some() {
            let ghost between = self.root;
            let r = Self::_delete(&mut self.root, key, storage);
            proof {
                if r is Ok {
                    lemma_searched_deleted(old(self).root, between, self.root, storage@, key@);
                } else {
                    lemma_searched_probed(old(self).root, between, self.root, storage@, key@);
                }
            }
            r
        } else {
            Ok(())
        }
    }

    /// The fresh nodes of a tree can be written if every key and every
    /// value of the tree can be.
    pub proof fn lemma_encodable(self, f: Seq<u8>)
        requires
            self.wf(f),
            writable(self.tree(f)),
        ensures
            self.encodable(),
    {
        lemma_writable(self.root, f);
    }

    /// A tree depends on the data region alone: it stays well formed and
    /// the same when only the superblock changes.
    pub proof fn lemma_same_data(self, f: Seq<u8>, g: Seq<u8>)
        requires
            same_data(f, g),
        ensures
            self.wf(f) ==> self.wf(g),
            self.tree(g) == self.tree(f),
    {
        lemma_same_data(self.root, f, g);
    }
}

/// What the handle asks of a tree over the file: a view that can be set
/// to a root on the file, searched, changed and stored. The tree stands
/// for a mathematical tree, which searching leaves as it is, which
/// inserting and deleting change as `tree_insert` and `tree_remove` say,
/// and which storing writes behind all that the file holds.
pub trait DBTree: Sized {
    /// The values that the tree holds.
    type Value;

    /// The text of a value.
    spec fn text_of(value: &Self::Value) -> Seq<char>;

    /// The tree that this view stands for, given the file `f`.
    spec fn model(&self, f: Seq<u8>) -> Tree;

    /// Whether the view is well formed, given the file `f`.
    spec fn well_formed(&self, f: Seq<u8>) -> bool;

    /// Whether the changes that were not stored yet can be written.
    spec fn writable_changes(&self) -> bool;

    /// Whether no changes wait to be stored.
    spec fn settled(&self) -> bool;

    /// Where no changes wait to be stored, all changes can be written.
    proof fn lemma_settled(&self)
        requires
            self.settled(),
        ensures
            self.writable_changes(),
    ;

    /// The changes can be written if every key and every value of the
    /// tree can be.
    proof fn lemma_writable(&self, f: Seq<u8>)
        requires
            self.well_formed(f),
            writable(self.model(f)),
        ensures
            self.writable_changes(),
    ;

    /// A tree depends on the data region alone: it stays well formed and
    /// the same when only the superblock changes.
    proof fn lemma_superblock(&self, f: Seq<u8>, g: Seq<u8>)
        requires
            same_data(f, g),
        ensures
            self.well_formed(f) ==> self.well_formed(g),
            self.model(g) == self.model(f),
    ;

    /// A tree without nodes.
    fn new() -> (r: Result<Self, DbError>)
        ensures
            r matches Ok(tree) && tree.settled() && forall|f: Seq<u8>| #![auto] tree.well_formed(f)
                && tree.model(f) == Tree::Empty,
    ;

    /// Makes the tree the one whose root record stands at `addr`. What
    /// the tree was before is dropped, changes that were not stored
    /// included.
    fn change_view(&mut self, addr: u64) -> (r: Result<(), DbError>)
        ensures
            r is Ok,
            final(self).settled(),
            forall|f: Seq<u8>| #![auto] final(self).model(f) == disk_tree(f, addr),
            forall|f: Seq<u8>| #![auto] addr_ok(f, addr) ==> final(self).well_formed(f),
    ;

    /// Writes the changes to the end of the file and returns the address
    /// of the root's record; `None` for the empty tree.
    fn store(&mut self, storage: &mut FileStorage) -> (r: Result<Option<u64>, DbError>)
        requires
            old(self).well_formed(old(storage)@),
            old(storage).wf(),
        ensures
            final(storage).wf(),
            old(storage)@.is_prefix_of(final(storage)@),
            final(self).well_formed(final(storage)@),
            refines(old(self).model(old(storage)@), final(self).model(final(storage)@)),
            r is Ok <==> old(self).writable_changes(),
            r matches Err(e) ==> e == DbError::Codec,
            r is Ok ==> final(self).settled(),
            old(self).settled() ==> {
                &&& r is Ok
                &&& *final(self) == *old(self)
                &&& final(storage)@ == old(storage)@
            },
            r matches Ok(Some(addr)) ==> addr_ok(final(storage)@, addr) && disk_tree(
                final(storage)@,
                addr,
            ) == final(self).model(final(storage)@),
            r matches Ok(None) ==> final(self).model(final(storage)@) == Tree::Empty,
    ;

    /// The value of `key`, or `None` where the tree does not hold the
    /// key.
    fn find(&mut self, key: &str, storage: &FileStorage) -> (r: Result<
        Option<Self::Value>,
        DbError,
    >)
        requires
            old(self).well_formed(storage@),
        ensures
            final(self).well_formed(storage@),
            final(self).model(storage@) == old(self).model(storage@),
            old(self).settled() ==> final(self).settled(),
            match tree_get(old(self).model(storage@), key@) {
                Ok(Some(v)) => r matches Ok(Some(value)) && Self::text_of(&value) == v,
                Ok(None) => r matches Ok(None),
                Err(e) => r matches Err(x) && x == e,
            },
    ;

    /// Gives `key` the value `value`.
    fn insert(&mut self, key: String, value: Self::Value, storage: &FileStorage) -> (r: Result<
        (),
        DbError,
    >)
        requires
            old(self).well_formed(storage@),
        ensures
            final(self).well_formed(storage@),
            old(self).settled() && r is Ok ==> (final(self).writable_changes() <==> insert_writable(
                old(self).model(storage@),
                key@,
                Self::text_of(&value),
            )),
            r is Ok && sized(old(self).model(storage@)) ==> sized(final(self).model(storage@)),
            r is Ok && ordered(old(self).model(storage@)) ==> ordered(final(self).model(storage@)),
            match tree_insert(old(self).model(storage@), key@, Self::text_of(&value)) {
                Ok((t, _)) => r is Ok && final(self).model(storage@) == t,
                Err(e) => r == Err::<(), DbError>(e) && final(self).model(storage@) == old(
                    self,
                ).model(storage@),
            },
    ;

    /// Takes `key` out of the tree, if the tree holds it.
    fn delete(&mut self, key: &str, storage: &FileStorage) -> (r: Result<(), DbError>)
        requires
            old(self).well_formed(storage@),
        ensures
            final(self).well_formed(storage@),
            old(self).settled() && r is Ok ==> (final(self).writable_changes() <==> remove_writable(
                old(self).model(storage@),
                key@,
            )),
            old(self).settled() && !(tree_find(old(self).model(storage@), key@) matches Ok(Some(_)))
                ==> final(self).settled(),
            r is Ok && sized(old(self).model(storage@)) ==> sized(final(self).model(storage@)),
            r is Ok && ordered(old(self).model(storage@)) && intact(old(self).model(storage@))
                ==> ordered(final(self).model(storage@)),
            match tree_remove(old(self).model(storage@), key@) {
                Ok(t) => r is Ok && final(self).model(storage@) == t,
                Err(e) => r == Err::<(), DbError>(e) && final(self).model(storage@) == old(
                    self,
                ).model(storage@),
            },
    ;
}

impl DBTree for BinaryTree {
    type Value = String;

    open spec fn text_of(value: &String) -> Seq<char> {
        value@
    }

    open spec fn model(&self, f: Seq<u8>) -> Tree {
        self.tree(f)
    }

    open spec fn well_formed(&self, f: Seq<u8>) -> bool {
        self.wf(f)
    }

    open spec fn writable_changes(&self) -> bool {
        self.encodable()
    }

    open spec fn settled(&self) -> bool {
        self.stored()
    }

    proof fn lemma_settled(&self) {
        lemma_stored_encodable(self.root);
    }

    proof fn lemma_writable(&self, f: Seq<u8>) {
        self.lemma_encodable(f);
    }

    proof fn lemma_superblock(&self, f: Seq<u8>, g: Seq<u8>) {
        self.lemma_same_data(f, g);
    }

    fn new() -> (r: Result<BinaryTree, DbError>) {
        BinaryTree::new()
    }

    fn change_view(&mut self, addr: u64) -> (r: Result<(), DbError>) {
        BinaryTree::change_view(self, addr)
    }

    fn store(&mut self, storage: &mut FileStorage) -> (r: Result<Option<u64>, DbError>) {
        BinaryTree::store(self, storage)
    }

    fn find(&mut self, key: &str, storage: &FileStorage) -> (r: Result<Option<String>, DbError>) {
        BinaryTree::find(self, key, storage)
    }

    fn insert(&mut self, key: String, value: String, storage: &FileStorage) -> (r: Result<
        (),
        DbError,
    >) {
        BinaryTree::insert(self, key, value, storage)
    }

    fn delete(&mut self, key: &str, storage: &FileStorage) -> (r: Result<(), DbError>) {
        BinaryTree::delete(self, key, storage)
    }
}

/// Whether an answer is the answer `expected`, text for text.
pub open spec fn answers<T: DBTree>(
    r: Result<Option<T::Value>, DbError>,
    expected: Result<Option<Seq<char>>, DbError>,
) -> bool {
    match expected {
        Ok(Some(v)) => r matches Ok(Some(value)) && T::text_of(&value) == v,
        Ok(None) => r matches Ok(None),
        Err(e) => r matches Err(x) && x == e,
    }
}

/// Whether a handle is inside a transaction.
#[derive(Clone, Copy, Debug, PartialEq, Eq, Structural)]
pub enum TxnState {
    /// No transaction is open: every read looks at the file anew.
    Idle,
    /// A transaction is open: the view is the one taken at its begin,
    /// with the changes made since.
    InTxn,
}

/// A handle on the store: the file, the tree over it, and whether a
/// transaction is open.
pub struct LogicalTree<T> {
    storage: FileStorage,
    state: TxnState,
    tree: T,
}

impl<T: DBTree> LogicalTree<T> {
    /// The bytes of the file.
    pub closed spec fn file(self) -> Seq<u8> {
        self.storage@
    }

    /// The tree that the handle works on.
    pub closed spec fn tree(self) -> Tree {
        self.tree.model(self.storage@)
    }

    /// Whether a transaction is open.
    pub closed spec fn in_txn(self) -> bool {
        self.state == TxnState::InTxn
    }

    /// Whether the changes that were not stored yet can be written to the
    /// file.
    pub closed spec fn encodable(self) -> bool {
        self.tree.writable_changes()
    }

    /// The tree that a change starts from: the view of the open
    /// transaction, or else the tree that the file holds.
    pub open spec fn basis(self) -> Tree {
        if self.in_txn() {
            self.tree()
        } else {
            match committed(self.file()) {
                Ok(t) => t,
                Err(_) => Tree::Unreadable,
            }
        }
    }

    /// Whether the handle has no changes that wait to be stored.
    pub closed spec fn settled(self) -> bool {
        self.tree.settled()
    }

    /// The file holds a superblock, and the tree is well formed over the
    /// file.
    pub closed spec fn wf(self) -> bool {
        self.storage.wf() && self.tree.well_formed(self.storage@)
    }

    /// Opens the store on the bytes of its file. A file that is shorter
    /// than the superblock becomes a fresh file, which holds the empty
    /// tree.
    pub fn new(file: Vec<u8>) -> (r: Result<LogicalTree<T>, DbError>)
        ensures
            match r {
                Ok(db) => {
                    &&& db.wf()
                    &&& !db.in_txn()
                    &&& db.settled()
                    &&& db.file() == opened(file@)
                    &&& committed(db.file()) == Ok::<Tree, DbError>(db.tree())
                    &&& file@.len() < SUPERBLOCK ==> db.tree() == Tree::Empty
                },
                Err(e) => e == DbError::Codec && committed(opened(file@)) is Err,
            },
    {
        let storage = match FileStorage::new(file) {
            Ok(storage) => storage,
            Err(e) => { return Err(e); },
        };
        let tree = match T::new() {
            Ok(tree) => tree,
            Err(e) => { return Err(e); },
        };
        let mut db = LogicalTree { storage, state: TxnState::Idle, tree };
        match db.refresh_tree_view() {
            Ok(()) => Ok(db),
            Err(e) => Err(e),
        }
    }

    /// Makes the tree the one that the file holds under its current
    /// root.
    fn refresh_tree_view(&mut self) -> (r: Result<(), DbError>)
        requires
            old(self).wf(),
        ensures
            final(self).wf(),
            final(self).file() == old(self).file(),
            final(self).in_txn() == old(self).in_txn(),
            r is Ok ==> final(self).tree.settled(),
            old(self).tree.settled() ==> final(self).tree.settled(),
            match committed(old(self).file()) {
                Ok(t) => r is Ok && final(self).tree() == t,
                Err(e) => r == Err::<(), DbError>(e) && final(self).tree() == old(self).tree(),
            },
    {
        match self.storage.get_root_addr() {
            Ok(Some(addr)) => {
                if addr < SUPERBLOCK || addr >= self.storage.len() {
                    Err(DbError::Codec)
                } else {
                    self.tree.change_view(addr)
                }
            },
            Ok(None) => match T::new() {
                Ok(tree) => {
                    self.tree = tree;
                    Ok(())
                },
                Err(e) => Err(e),
            },
            Err(e) => Err(e),
        }
    }

    /// The bytes of the file as the handle holds them.
    pub fn storage(&self) -> (storage: &FileStorage)
        ensures
            storage@ == self.file(),
    {
        &self.storage
    }

    /// Whether a transaction is open.
    pub fn is_in_txn(&self) -> (open: bool)
        ensures
            open == self.in_txn(),
    {
        match self.state {
            TxnState::InTxn => true,
            TxnState::Idle => false,
        }
    }

    /// Begins a transaction, unless one is open: takes the tree that the
    /// file holds by now as the view that the transaction works on. The
    /// caller holds the exclusive lock on the file from before this call
    /// until after the commit.
    pub fn begin(&mut self) -> (r: Result<(), DbError>)
        requires
            old(self).wf(),
        ensures
            final(self).wf(),
            final(self).file() == old(self).file(),
            final(self).in_txn(),
            old(self).in_txn() ==> r is Ok && final(self).tree() == old(self).tree(),
            !old(self).in_txn() && r is Ok ==> final(self).settled(),
            !old(self).in_txn() ==> (match committed(old(self).file()) {
                Ok(t) => r is Ok && final(self).tree() == t,
                Err(e) => r == Err::<(), DbError>(e) && final(self).tree() == old(self).tree(),
            }),
    {
        match self.state {
            TxnState::InTxn => Ok(()),
            TxnState::Idle => {
                self.state = TxnState::InTxn;
                self.refresh_tree_view()
            },
        }
    }

    /// Commits the open transaction, if there is one: writes the fresh
    /// nodes behind all that the file holds, then records the new root in
    /// the superblock, which is the moment at which the changes become
    /// visible, and ends the transaction.
    pub fn commit(&mut self) -> (r: Result<(), DbError>)
        requires
            old(self).wf(),
        ensures
            final(self).wf(),
            appended(old(self).file(), final(self).file()),
            refines(old(self).tree(), final(self).tree()),
            r is Ok && old(self).in_txn() ==> final(self).settled(),
            old(self).settled() ==> same_data(old(self).file(), final(self).file()),
            !old(self).in_txn() ==> {
                &&& r is Ok
                &&& !final(self).in_txn()
                &&& final(self).file() == old(self).file()
                &&& final(self).tree() == old(self).tree()
            },
            old(self).in_txn() ==> {
                &&& r == (if old(self).encodable() {
                    Ok::<(), DbError>(())
                } else {
                    Err::<(), DbError>(DbError::Codec)
                })
                &&& r is Ok ==> !final(self).in_txn() && committed(final(self).file()) == Ok::<
                    Tree,
                    DbError,
                >(final(self).tree())
                &&& r is Ok ==> forall|k: Seq<char>| #[trigger]
                    tree_get(old(self).tree(), k) is Ok ==> observed(final(self).file(), k)
                        == tree_get(old(self).tree(), k)
                &&& r is Err ==> final(self).in_txn() && root_of(final(self).file()) == root_of(
                    old(self).file(),
                )
            },
    {
        proof {
            lemma_refines_same(self.tree());
        }
        let ghost view = self.tree();
        match self.state {
            TxnState::Idle => { return Ok(()); },
            TxnState::InTxn => {},
        }
        let ghost f0 = self.storage@;
        let root = match self.tree.store(&mut self.storage) {
            Ok(root) => root,
            Err(e) => {
                proof {
                    lemma_root_extends(f0, self.storage@);
                }
                return Err(e);
            },
        };
        let ghost f1 = self.storage@;
        let addr: u64 = match root {
            Some(addr) => addr,
            None => 0,
        };
        match self.storage.commit_root_addr(addr) {
            Ok(()) => {},
            Err(e) => {
                proof {
                    lemma_root_extends(f0, f1);
                    self.tree.lemma_superblock(f1, self.storage@);
                }
                return Err(e);
            },
        }
        proof {
            let f2 = self.storage@;
            lemma_root_extends(f0, f1);
            self.tree.lemma_superblock(f1, f2);
            if root is Some {
                lemma_disk_tree_same_data(f1, f2, addr);
            }
            assert forall|k: Seq<char>| #[trigger] tree_get(view, k) is Ok implies observed(
                f2,
                k,
            ) == tree_get(view, k) by {
                lemma_refines_get(view, self.tree(), k);
            }
        }
        self.state = TxnState::Idle;
        Ok(())
    }

    /// The value of `key`, or `None` where the store does not hold the
    /// key. Outside a transaction the answer is that of the tree which
    /// the file holds by now; inside one, that of the transaction's view.
    pub fn get(&mut self, key: &str) -> (r: Result<Option<T::Value>, DbError>)
        requires
            old(self).wf(),
        ensures
            final(self).wf(),
            final(self).file() == old(self).file(),
            final(self).in_txn() == old(self).in_txn(),
            old(self).settled() ==> final(self).settled(),
            !old(self).in_txn() && committed(old(self).file()) is Ok ==> final(self).settled(),
            old(self).in_txn() ==> final(self).tree() == old(self).tree() && answers::<T>(
                r,
                tree_get(old(self).tree(), key@),
            ),
            !old(self).in_txn() ==> answers::<T>(r, observed(old(self).file(), key@)),
            !old(self).in_txn() ==> (match committed(old(self).file()) {
                Ok(t) => final(self).tree() == t,
                Err(e) => final(self).tree() == old(self).tree(),
            }),
    {
        match self.state {
            TxnState::Idle => match self.refresh_tree_view() {
                Ok(()) => {},
                Err(e) => { return Err(e); },
            },
            TxnState::InTxn => {},
        }
        self.tree.find(key, &self.storage)
    }

    /// Gives `key` the value `value`. Inside a transaction only the view
    /// changes, and the file stays as it is; outside one the call is a
    /// transaction of its own: begin, put, commit.
    pub fn put(&mut self, key: String, value: T::Value) -> (r: Result<(), DbError>)
        requires
            old(self).wf(),
        ensures
            final(self).wf(),
            appended(old(self).file(), final(self).file()),
            r is Ok ==> tree_get(final(self).tree(), key@) == Ok::<Option<Seq<char>>, DbError>(
                Some(T::text_of(&value)),
            ),
            r is Ok && intact(old(self).basis()) ==> {
                &&& tree_insert(old(self).basis(), key@, T::text_of(&value)) matches Ok((t, _))
                &&& final(self).tree() == t
                &&& intact(t)
                &&& sized(old(self).basis()) ==> sized(t)
                &&& ordered(old(self).basis()) ==> ordered(t)
            },
            old(self).in_txn() ==> {
                &&& final(self).in_txn()
                &&& final(self).file() == old(self).file()
                &&& forall|k: Seq<char>| #[trigger]
                    observed(final(self).file(), k) == observed(old(self).file(), k)
                &&& match tree_insert(old(self).tree(), key@, T::text_of(&value)) {
                    Ok((t, _)) => r is Ok && final(self).tree() == t,
                    Err(e) => r == Err::<(), DbError>(e) && final(self).tree() == old(self).tree(),
                }
            },
            !old(self).in_txn() ==> (match committed(old(self).file()) {
                Err(e) => {
                    &&& r == Err::<(), DbError>(e)
                    &&& final(self).in_txn()
                    &&& final(self).file() == old(self).file()
                },
                Ok(t0) => match tree_insert(t0, key@, T::text_of(&value)) {
                    Err(e) => {
                        &&& r == Err::<(), DbError>(e)
                        &&& final(self).in_txn()
                        &&& final(self).file() == old(self).file()
                        &&& final(self).tree() == t0
                    },
                    Ok((t1, _)) => {
                        &&& refines(t1, final(self).tree())
                        &&& r == (if insert_writable(t0, key@, T::text_of(&value)) {
                            Ok::<(), DbError>(())
                        } else {
                            Err::<(), DbError>(DbError::Codec)
                        })
                        &&& r is Ok ==> !final(self).in_txn() && committed(final(self).file())
                            == Ok::<Tree, DbError>(final(self).tree())
                        &&& r matches Err(e) ==> e == DbError::Codec && final(self).in_txn()
                            && root_of(final(self).file()) == root_of(old(self).file())
                    },
                },
            }),
    {
        match self.state {
            TxnState::Idle => {
                match self.begin() {
                    Ok(()) => {},
                    Err(e) => { return Err(e); },
                }
                let ghost before = self.tree();
                match self.tree.insert(key, value, &self.storage) {
                    Ok(()) => {},
                    Err(e) => { return Err(e); },
                }
                let ghost after = self.tree();
                proof {
                    lemma_insert_then_get(before, key@, T::text_of(&value));
                }
                let committed = self.commit();
                proof {
                    lemma_refines_get(after, self.tree(), key@);
                    if intact(before) {
                        lemma_keeps_intact(before, key@, T::text_of(&value));
                        lemma_refines_intact(after, self.tree());
                        if sized(before) {
                            lemma_insert_keeps_sizes(before, key@, T::text_of(&value));
                        }
                        if ordered(before) {
                            lemma_insert_keeps_order(before, key@, T::text_of(&value));
                        }
                    }
                }
                committed
            },
            TxnState::InTxn => {
                proof {
                    let before = self.tree();
                    lemma_insert_then_get(before, key@, T::text_of(&value));
                    if intact(before) {
                        lemma_keeps_intact(before, key@, T::text_of(&value));
                        if sized(before) {
                            lemma_insert_keeps_sizes(before, key@, T::text_of(&value));
                        }
                        if ordered(before) {
                            lemma_insert_keeps_order(before, key@, T::text_of(&value));
                        }
                    }
                }
                self.tree.insert(key, value, &self.storage)
            },
        }
    }

    /// Takes `key` out of the store, if the store holds it. Inside a
    /// transaction only the view changes, and the file stays as it is;
    /// outside one the call is a transaction of its own: begin, delete,
    /// commit.
    pub fn del(&mut self, key: &str) -> (r: Result<(), DbError>)
        requires
            old(self).wf(),
        ensures
            final(self).wf(),
            appended(old(self).file(), final(self).file()),
            old(self).in_txn() && old(self).settled() && !(tree_find(old(self).tree(), key@)
                matches Ok(Some(_))) ==> final(self).settled(),
            r is Ok && intact(old(self).basis()) ==> {
                &&& tree_remove(old(self).basis(), key@) matches Ok(t)
                &&& final(self).tree() == t
                &&& intact(t)
                &&& sized(old(self).basis()) ==> sized(t)
                &&& ordered(old(self).basis()) ==> ordered(t)
            },
            r is Ok && old(self).in_txn() && ordered(old(self).tree()) && intact(old(self).tree())
                ==> tree_get(final(self).tree(), key@) == Ok::<Option<Seq<char>>, DbError>(None),
            r is Ok && !old(self).in_txn() ==> (committed(old(self).file()) matches Ok(t0)
                && (ordered(t0) && intact(t0) ==> tree_get(final(self).tree(), key@) == Ok::<
                Option<Seq<char>>,
                DbError,
            >(None))),
            old(self).in_txn() ==> {
                &&& final(self).in_txn()
                &&& final(self).file() == old(self).file()
                &&& forall|k: Seq<char>| #[trigger]
                    observed(final(self).file(), k) == observed(old(self).file(), k)
                &&& match tree_remove(old(self).tree(), key@) {
                    Ok(t) => r is Ok && final(self).tree() == t,
                    Err(e) => r == Err::<(), DbError>(e) && final(self).tree() == old(self).tree(),
                }
            },
            !old(self).in_txn() ==> (match committed(old(self).file()) {
                Err(e) => {
                    &&& r == Err::<(), DbError>(e)
                    &&& final(self).in_txn()
                    &&& final(self).file() == old(self).file()
                },
                Ok(t0) => match tree_remove(t0, key@) {
                    Err(e) => {
                        &&& r == Err::<(), DbError>(e)
                        &&& final(self).in_txn()
                        &&& final(self).file() == old(self).file()
                        &&& final(self).tree() == t0
                    },
                    Ok(t1) => {
                        &&& refines(t1, final(self).tree())
                        &&& r == (if remove_writable(t0, key@) {
                            Ok::<(), DbError>(())
                        } else {
                            Err::<(), DbError>(DbError::Codec)
                        })
                        &&& r is Ok ==> !final(self).in_txn() && committed(final(self).file())
                            == Ok::<Tree, DbError>(final(self).tree())
                        &&& r matches Err(e) ==> e == DbError::Codec && final(self).in_txn()
                            && root_of(final(self).file()) == root_of(old(self).file())
                    },
                },
            }),
    {
        match self.state {
            TxnState::Idle => {
                match self.begin() {
                    Ok(()) => {},
                    Err(e) => { return Err(e); },
                }
                let ghost before = self.tree();
                match self.tree.delete(key, &self.storage) {
                    Ok(()) => {},
                    Err(e) => { return Err(e); },
                }
                let ghost after = self.tree();
                let committed = self.commit();
                proof {
                    if intact(before) {
                        lemma_keeps_intact(before, key@, key@);
                        lemma_refines_intact(after, self.tree());
                        if sized(before) {
                            lemma_remove_keeps_sizes(before, key@);
                        }
                        if ordered(before) {
                            lemma_remove_keeps_order(before, key@);
                        }
                    }
                }
                committed
            },
            TxnState::InTxn => {
                proof {
                    let before = self.tree();
                    if intact(before) {
                        lemma_keeps_intact(before, key@, key@);
                        if sized(before) {
                            lemma_remove_keeps_sizes(before, key@);
                        }
                        if ordered(before) {
                            lemma_remove_keeps_order(before, key@);
                        }
                    }
                }
                self.tree.delete(key, &self.storage)
            },
        }
    }

    /// The changes of a handle can be written if every key and every
    /// value of its tree can be.
    pub proof fn lemma_encodable(self)
        requires
            self.wf(),
            writable(self.tree()),
        ensures
            self.encodable(),
    {
        self.tree.lemma_writable(self.storage@);
    }

    /// A handle without changes that wait to be stored has nothing that
    /// could not be written.
    pub proof fn lemma_settled(self)
        requires
            self.settled(),
        ensures
            self.encodable(),
    {
        self.tree.lemma_settled();
    }

    /// The file of a handle holds a superblock, so that opening its bytes
    /// takes them as they are.
    pub proof fn lemma_file(self)
        requires
            self.wf(),
        ensures
            self.file().len() >= SUPERBLOCK,
            opened(self.file()) == self.file(),
    {
    }

    /// Reopening: a handle that is opened on the bytes of the file of a
    /// handle whose changes are committed works on those bytes, and
    /// answers every key as the tree of that handle does.
    pub proof fn lemma_reopen(self, reopened: LogicalTree<T>, k: Seq<char>)
        requires
            self.wf(),
            committed(self.file()) == Ok::<Tree, DbError>(self.tree()),
            reopened.file() == opened(self.file()),
        ensures
            reopened.file() == self.file(),
            observed(reopened.file(), k) == tree_get(self.tree(), k),
    {
    }
}

} // verus!

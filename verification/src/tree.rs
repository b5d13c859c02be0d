//! The mathematical tree that an agent graph stands for, the order of its
//! keys, and what searching, inserting and deleting mean on it.
//!
//! The functions `tree_find`, `tree_insert` and `tree_remove` say what the
//! operations of the store do to any tree, also to one of which a part
//! cannot be read or whose order is broken. The laws that follow them say
//! what this comes to: a key has the value that was last written for it,
//! the sizes stay right, and an ordered tree answers like the map from its
//! keys to their values.

use vstd::prelude::*;
use vstd::utf8::*;
use crate::error::DbError;
use crate::serde_interface::text_encodable;

verus! {

/// How one key stands to another.
#[derive(Clone, Copy, Debug, PartialEq, Eq, Structural)]
pub enum KeyOrder {
    /// The first key stands before the second.
    Less,
    /// The two keys are the same key.
    Equal,
    /// The first key stands after the second.
    Greater,
}

/// The lexicographic order of two byte strings.
pub open spec fn bytes_order(a: Seq<u8>, b: Seq<u8>) -> KeyOrder
    decreases a.len(),
{
    if a.len() == 0 {
        if b.len() == 0 {
            KeyOrder::Equal
        } else {
            KeyOrder::Less
        }
    } else if b.len() == 0 {
        KeyOrder::Greater
    } else if a[0] < b[0] {
        KeyOrder::Less
    } else if a[0] > b[0] {
        KeyOrder::Greater
    } else {
        bytes_order(a.drop_first(), b.drop_first())
    }
}

/// The order of two keys: the lexicographic order of their UTF-8 bytes.
pub open spec fn key_order(a: Seq<char>, b: Seq<char>) -> KeyOrder {
    bytes_order(encode_utf8(a), encode_utf8(b))
}

/// Whether the key `a` stands before the key `b`.
pub open spec fn less(a: Seq<char>, b: Seq<char>) -> bool {
    key_order(a, b) == KeyOrder::Less
}

/// Compares two keys byte by byte.
pub fn compare_keys(a: &str, b: &str) -> (r: KeyOrder)
    ensures
        r == key_order(a@, b@),
{
    let x = a.as_bytes();
    let y = b.as_bytes();
    let mut i: usize = 0;
    proof {
        assert(x@.skip(0) =~= x@);
        assert(y@.skip(0) =~= y@);
    }
    loop
        invariant
            i <= x@.len(),
            i <= y@.len(),
            x@ == encode_utf8(a@),
            y@ == encode_utf8(b@),
            key_order(a@, b@) == bytes_order(x@.skip(i as int), y@.skip(i as int)),
        decreases x@.len() - i,
    {
        if i >= x.len() {
            if i >= y.len() {
                return KeyOrder::Equal;
            } else {
                return KeyOrder::Less;
            }
        }
        if i >= y.len() {
            return KeyOrder::Greater;
        }
        if x[i] < y[i] {
            return KeyOrder::Less;
        }
        if x[i] > y[i] {
            return KeyOrder::Greater;
        }
        proof {
            assert(x@.skip(i as int).drop_first() =~= x@.skip(i + 1));
            assert(y@.skip(i as int).drop_first() =~= y@.skip(i + 1));
        }
        i = i + 1;
    }
}

/// A byte string stands equal to itself.
pub proof fn lemma_bytes_order_same(a: Seq<u8>)
    ensures
        bytes_order(a, a) == KeyOrder::Equal,
    decreases a.len(),
{
    if a.len() > 0 {
        lemma_bytes_order_same(a.drop_first());
    }
}

/// Only a byte string itself stands equal to it.
pub proof fn lemma_bytes_order_equal(a: Seq<u8>, b: Seq<u8>)
    requires
        bytes_order(a, b) == KeyOrder::Equal,
    ensures
        a == b,
    decreases a.len(),
{
    if a.len() > 0 {
        lemma_bytes_order_equal(a.drop_first(), b.drop_first());
        assert(a =~= seq![a[0]] + a.drop_first());
        assert(b =~= seq![b[0]] + b.drop_first());
    } else {
        assert(a =~= b);
    }
}

/// A byte string stands before another exactly when the other stands
/// after it.
pub proof fn lemma_bytes_order_flip(a: Seq<u8>, b: Seq<u8>)
    ensures
        bytes_order(a, b) == KeyOrder::Less <==> bytes_order(b, a) == KeyOrder::Greater,
    decreases a.len(),
{
    if a.len() > 0 && b.len() > 0 && a[0] == b[0] {
        lemma_bytes_order_flip(a.drop_first(), b.drop_first());
    }
}

/// The order of byte strings is transitive.
pub proof fn lemma_bytes_order_trans(a: Seq<u8>, b: Seq<u8>, c: Seq<u8>)
    requires
        bytes_order(a, b) == KeyOrder::Less,
        bytes_order(b, c) == KeyOrder::Less,
    ensures
        bytes_order(a, c) == KeyOrder::Less,
    decreases a.len(),
{
    if a.len() > 0 && b.len() > 0 && c.len() > 0 && a[0] == b[0] && b[0] == c[0] {
        lemma_bytes_order_trans(a.drop_first(), b.drop_first(), c.drop_first());
    }
}

/// Two keys stand equal exactly when they are the same key.
pub proof fn lemma_key_order_equal(a: Seq<char>, b: Seq<char>)
    ensures
        key_order(a, b) == KeyOrder::Equal <==> a == b,
{
    if a == b {
        lemma_bytes_order_same(encode_utf8(a));
    }
    if key_order(a, b) == KeyOrder::Equal {
        lemma_bytes_order_equal(encode_utf8(a), encode_utf8(b));
        encode_utf8_decode_utf8(a);
        encode_utf8_decode_utf8(b);
    }
}

/// The order of keys is a strict total order: of two keys exactly one
/// stands before the other unless they are the same key, and the order is
/// transitive.
pub proof fn lemma_key_order(a: Seq<char>, b: Seq<char>, c: Seq<char>)
    ensures
        key_order(a, b) == KeyOrder::Equal <==> a == b,
        key_order(a, b) == KeyOrder::Greater <==> less(b, a),
        less(a, b) && less(b, c) ==> less(a, c),
{
    lemma_key_order_equal(a, b);
    lemma_bytes_order_flip(encode_utf8(a), encode_utf8(b));
    lemma_bytes_order_flip(encode_utf8(b), encode_utf8(a));
    if less(a, b) && less(b, c) {
        lemma_bytes_order_trans(encode_utf8(a), encode_utf8(b), encode_utf8(c));
    }
}

/// The tree that an agent graph stands for.
pub enum Tree {
    /// No node.
    Empty,
    /// A node whose record cannot be read from the file.
    Unreadable,
    /// A node with its key, its size, its value (`None` where the value's
    /// record cannot be read) and its two subtrees.
    Node { key: Seq<char>, size: usize, value: Option<Seq<char>>, left: Box<Tree>, right: Box<Tree> },
}

/// What a search for the key `k` finds in the tree `t`: nothing, or the
/// value of the node that has the key (`None` where that value cannot be
/// read). The search fails where it comes to a node that cannot be read.
pub open spec fn tree_find(t: Tree, k: Seq<char>) -> Result<Option<Option<Seq<char>>>, DbError>
    decreases t,
{
    match t {
        Tree::Empty => Ok(None),
        Tree::Unreadable => Err(DbError::Codec),
        Tree::Node { key, size, value, left, right } => match key_order(k, key) {
            KeyOrder::Less => tree_find(*left, k),
            KeyOrder::Greater => tree_find(*right, k),
            KeyOrder::Equal => Ok(Some(value)),
        },
    }
}

/// The value that the tree `t` gives for the key `k`.
pub open spec fn tree_get(t: Tree, k: Seq<char>) -> Result<Option<Seq<char>>, DbError> {
    match tree_find(t, k) {
        Ok(Some(Some(v))) => Ok(Some(v)),
        Ok(Some(None)) => Err(DbError::Codec),
        Ok(None) => Ok(None),
        Err(e) => Err(e),
    }
}

/// The tree that holds the one key `k` with the value `v`.
pub open spec fn leaf(k: Seq<char>, v: Seq<char>) -> Tree {
    Tree::Node {
        key: k,
        size: 1,
        value: Some(v),
        left: Box::new(Tree::Empty),
        right: Box::new(Tree::Empty),
    }
}

/// The tree that comes of `t` when `k` gets the value `v`, and by how
/// much the number of keys grows. A key that the tree holds keeps its
/// node and gets the new value; a new key becomes a leaf where the search
/// for it ends, and every node above the leaf counts one key more. The
/// insertion fails where the search comes to a node that cannot be read,
/// or where a node would have to count more keys than `usize::MAX`.
pub open spec fn tree_insert(t: Tree, k: Seq<char>, v: Seq<char>) -> Result<(Tree, usize), DbError>
    decreases t,
{
    match t {
        Tree::Empty => Ok((leaf(k, v), 1usize)),
        Tree::Unreadable => Err(DbError::Codec),
        Tree::Node { key, size, value, left, right } => match key_order(k, key) {
            KeyOrder::Equal => Ok((Tree::Node { key, size, value: Some(v), left, right }, 0usize)),
            KeyOrder::Less => match tree_insert(*left, k, v) {
                Ok((l, d)) => if size + d > usize::MAX {
                    Err(DbError::Invariant)
                } else {
                    Ok(
                        (
                            Tree::Node {
                                key,
                                size: (size + d) as usize,
                                value,
                                left: Box::new(l),
                                right,
                            },
                            d,
                        ),
                    )
                },
                Err(e) => Err(e),
            },
            KeyOrder::Greater => match tree_insert(*right, k, v) {
                Ok((r, d)) => if size + d > usize::MAX {
                    Err(DbError::Invariant)
                } else {
                    Ok(
                        (
                            Tree::Node {
                                key,
                                size: (size + d) as usize,
                                value,
                                left,
                                right: Box::new(r),
                            },
                            d,
                        ),
                    )
                },
                Err(e) => Err(e),
            },
        },
    }
}

/// How an insertion ends, by what the search for the key finds: where the
/// search fails, the insertion fails in the same way; a key that the
/// tree holds gets its value and no size changes; a new key adds one key,
/// unless a node on its way cannot count one key more.
pub proof fn lemma_insert_outcome(t: Tree, k: Seq<char>, v: Seq<char>)
    ensures
        match tree_find(t, k) {
            Err(e) => tree_insert(t, k, v) == Err::<(Tree, usize), DbError>(e),
            Ok(Some(_)) => tree_insert(t, k, v) matches Ok((_, d)) && d == 0,
            Ok(None) => match tree_insert(t, k, v) {
                Ok((_, d)) => d == 1,
                Err(e) => e == DbError::Invariant,
            },
        },
    decreases t,
{
    match t {
        Tree::Node { key, size, value, left, right } => {
            lemma_insert_outcome(*left, k, v);
            lemma_insert_outcome(*right, k, v);
        },
        _ => {},
    }
}

/// The tree that comes of `t` when its least key leaves, with that key
/// and its value. The least key is the key of the first node down the
/// left spine that has no left child; its right subtree takes its place,
/// and every node above it counts one key less.
pub open spec fn tree_delmin(t: Tree) -> Result<(Tree, Seq<char>, Option<Seq<char>>), DbError>
    decreases t,
{
    match t {
        Tree::Empty => Err(DbError::Invariant),
        Tree::Unreadable => Err(DbError::Codec),
        Tree::Node { key, size, value, left, right } => if *left is Empty {
            Ok((*right, key, value))
        } else if size == 0 {
            Err(DbError::Invariant)
        } else {
            match tree_delmin(*left) {
                Ok((l, min_key, min_value)) => Ok(
                    (
                        Tree::Node {
                            key,
                            size: (size - 1) as usize,
                            value,
                            left: Box::new(l),
                            right,
                        },
                        min_key,
                        min_value,
                    ),
                ),
                Err(e) => Err(e),
            }
        },
    }
}

/// The tree that comes of `t` when the key `k` leaves. Every node on the
/// way to the key counts one key less. A node with at most one child is
/// replaced by that child; a node with two children takes the key and the
/// value of the least key of its right subtree, which leaves that
/// subtree.
pub open spec fn tree_delete(t: Tree, k: Seq<char>) -> Result<Tree, DbError>
    decreases t,
{
    match t {
        Tree::Empty => Ok(Tree::Empty),
        Tree::Unreadable => Err(DbError::Codec),
        Tree::Node { key, size, value, left, right } => if size == 0 {
            Err(DbError::Invariant)
        } else {
            match key_order(k, key) {
                KeyOrder::Less => match tree_delete(*left, k) {
                    Ok(l) => Ok(
                        Tree::Node {
                            key,
                            size: (size - 1) as usize,
                            value,
                            left: Box::new(l),
                            right,
                        },
                    ),
                    Err(e) => Err(e),
                },
                KeyOrder::Greater => match tree_delete(*right, k) {
                    Ok(r) => Ok(
                        Tree::Node {
                            key,
                            size: (size - 1) as usize,
                            value,
                            left,
                            right: Box::new(r),
                        },
                    ),
                    Err(e) => Err(e),
                },
                KeyOrder::Equal => if !(*left is Empty) && !(*right is Empty) {
                    match tree_delmin(*right) {
                        Ok((r, min_key, min_value)) => Ok(
                            Tree::Node {
                                key: min_key,
                                size: (size - 1) as usize,
                                value: min_value,
                                left,
                                right: Box::new(r),
                            },
                        ),
                        Err(e) => Err(e),
                    }
                } else if !(*left is Empty) {
                    Ok(*left)
                } else {
                    Ok(*right)
                },
            }
        },
    }
}

/// What the tree `t` is after the key `k` was asked to leave: nothing
/// changes where the tree does not hold the key.
pub open spec fn tree_remove(t: Tree, k: Seq<char>) -> Result<Tree, DbError> {
    match tree_find(t, k) {
        Ok(Some(_)) => tree_delete(t, k),
        Ok(None) => Ok(t),
        Err(e) => Err(e),
    }
}

/// After a key was given a value, the search for the key finds that
/// value.
pub proof fn lemma_insert_then_get(t: Tree, k: Seq<char>, v: Seq<char>)
    ensures
        tree_insert(t, k, v) matches Ok((after, _)) ==> tree_get(after, k) == Ok::<
            Option<Seq<char>>,
            DbError,
        >(Some(v)),
    decreases t,
{
    lemma_key_order_equal(k, k);
    match t {
        Tree::Node { key, size, value, left, right } => {
            lemma_insert_then_get(*left, k, v);
            lemma_insert_then_get(*right, k, v);
        },
        _ => {},
    }
}

/// Giving one key a value changes what the search finds for no other
/// key: each key has the value that was last written for it.
pub proof fn lemma_insert_keeps_other_keys(t: Tree, k: Seq<char>, v: Seq<char>, other: Seq<char>)
    requires
        other != k,
    ensures
        tree_insert(t, k, v) matches Ok((after, _)) ==> tree_find(after, other) == tree_find(
            t,
            other,
        ),
    decreases t,
{
    lemma_key_order_equal(other, k);
    match t {
        Tree::Node { key, size, value, left, right } => {
            lemma_key_order_equal(k, key);
            lemma_key_order_equal(other, key);
            lemma_insert_keeps_other_keys(*left, k, v, other);
            lemma_insert_keeps_other_keys(*right, k, v, other);
        },
        _ => {},
    }
}

/// The number of keys that the root of `t` counts.
pub open spec fn count(t: Tree) -> nat {
    match t {
        Tree::Node { key, size, value, left, right } => size as nat,
        _ => 0,
    }
}

/// Whether every node of `t` counts its keys rightly: one for itself and
/// those that its two children count, where a missing child counts none.
pub open spec fn sized(t: Tree) -> bool
    decreases t,
{
    match t {
        Tree::Empty => true,
        Tree::Unreadable => false,
        Tree::Node { key, size, value, left, right } => {
            &&& size == 1 + count(*left) + count(*right)
            &&& sized(*left)
            &&& sized(*right)
        },
    }
}

/// Inserting keeps the sizes right: the tree counts as many keys more as
/// the insertion reports, which is none for a key that the tree held and
/// one for a new key.
pub proof fn lemma_insert_keeps_sizes(t: Tree, k: Seq<char>, v: Seq<char>)
    requires
        sized(t),
    ensures
        tree_insert(t, k, v) matches Ok((after, delta)) ==> {
            &&& sized(after)
            &&& count(after) == count(t) + delta
            &&& delta == (if tree_find(t, k) matches Ok(Some(_)) {
                0nat
            } else {
                1nat
            })
        },
    decreases t,
{
    match t {
        Tree::Node { key, size, value, left, right } => {
            lemma_insert_keeps_sizes(*left, k, v);
            lemma_insert_keeps_sizes(*right, k, v);
        },
        _ => {},
    }
}

/// Taking the least key out keeps the sizes right: the tree counts one
/// key less.
pub proof fn lemma_delmin_keeps_sizes(t: Tree)
    requires
        sized(t),
    ensures
        tree_delmin(t) matches Ok((after, _, _)) ==> sized(after) && count(after) + 1 == count(t),
    decreases t,
{
    match t {
        Tree::Node { key, size, value, left, right } => {
            lemma_delmin_keeps_sizes(*left);
        },
        _ => {},
    }
}

/// Deleting keeps the sizes right: the tree counts one key less where it
/// held the key, and stays as it is where it did not.
pub proof fn lemma_remove_keeps_sizes(t: Tree, k: Seq<char>)
    requires
        sized(t),
    ensures
        tree_remove(t, k) matches Ok(after) ==> {
            &&& sized(after)
            &&& count(after) + (if tree_find(t, k) matches Ok(Some(_)) {
                1nat
            } else {
                0nat
            }) == count(t)
        },
    decreases t,
{
    match t {
        Tree::Node { key, size, value, left, right } => {
            match key_order(k, key) {
                KeyOrder::Less => {
                    lemma_remove_keeps_sizes(*left, k);
                },
                KeyOrder::Greater => {
                    lemma_remove_keeps_sizes(*right, k);
                },
                KeyOrder::Equal => {
                    lemma_delmin_keeps_sizes(*right);
                },
            }
        },
        _ => {},
    }
}

/// Whether a node of the tree `t` has the key `k`.
pub open spec fn holds(t: Tree, k: Seq<char>) -> bool
    decreases t,
{
    match t {
        Tree::Node { key, size, value, left, right } => k == key || holds(*left, k) || holds(
            *right,
            k,
        ),
        _ => false,
    }
}

/// Whether every key of the tree `t` stands before `pivot`.
pub open spec fn all_before(t: Tree, pivot: Seq<char>) -> bool {
    forall|k: Seq<char>| holds(t, k) ==> less(k, pivot)
}

/// Whether every key of the tree `t` stands after `pivot`.
pub open spec fn all_after(t: Tree, pivot: Seq<char>) -> bool {
    forall|k: Seq<char>| holds(t, k) ==> less(pivot, k)
}

/// The order of a binary search tree: at every node, the keys of the left
/// subtree stand before the node's key and those of the right subtree
/// after it, so that no key occurs twice.
pub open spec fn ordered(t: Tree) -> bool
    decreases t,
{
    match t {
        Tree::Node { key, size, value, left, right } => {
            &&& ordered(*left)
            &&& ordered(*right)
            &&& all_before(*left, key)
            &&& all_after(*right, key)
        },
        _ => true,
    }
}

/// Whether every node and every value of the tree `t` can be read.
pub open spec fn intact(t: Tree) -> bool
    decreases t,
{
    match t {
        Tree::Empty => true,
        Tree::Unreadable => false,
        Tree::Node { key, size, value, left, right } => value is Some && intact(*left) && intact(
            *right,
        ),
    }
}

/// A tree that can be read in full can be read in full after a key was
/// given a value, and after a key left.
pub proof fn lemma_keeps_intact(t: Tree, k: Seq<char>, v: Seq<char>)
    requires
        intact(t),
    ensures
        tree_insert(t, k, v) matches Ok((after, _)) ==> intact(after),
        tree_delmin(t) matches Ok((after, _, value)) ==> intact(after) && value is Some,
        tree_delete(t, k) matches Ok(after) ==> intact(after),
        tree_remove(t, k) matches Ok(after) ==> intact(after),
    decreases t,
{
    match t {
        Tree::Node { key, size, value, left, right } => {
            lemma_keeps_intact(*left, k, v);
            lemma_keeps_intact(*right, k, v);
        },
        _ => {},
    }
}

/// In an ordered tree that can be read in full, the search finds exactly
/// the keys that the tree holds, each with a value.
pub proof fn lemma_find_holds(t: Tree, k: Seq<char>)
    requires
        ordered(t),
        intact(t),
    ensures
        holds(t, k) ==> tree_find(t, k) matches Ok(Some(Some(_))),
        !holds(t, k) ==> tree_find(t, k) == Ok::<Option<Option<Seq<char>>>, DbError>(None),
    decreases t,
{
    match t {
        Tree::Node { key, size, value, left, right } => {
            lemma_key_order(k, key, k);
            lemma_find_holds(*left, k);
            lemma_find_holds(*right, k);
            if holds(*left, k) {
                assert(less(k, key));
            }
            if holds(*right, k) {
                assert(less(key, k));
            }
        },
        _ => {},
    }
}

/// Inserting keeps the order: the tree holds the keys that it held and the
/// new key, and can be read in full if it could before.
pub proof fn lemma_insert_keeps_order(t: Tree, k: Seq<char>, v: Seq<char>)
    requires
        ordered(t),
    ensures
        tree_insert(t, k, v) matches Ok((after, _)) ==> {
            &&& ordered(after)
            &&& forall|x: Seq<char>| holds(after, x) <==> holds(t, x) || x == k
            &&& intact(t) ==> intact(after)
        },
    decreases t,
{
    match t {
        Tree::Node { key, size, value, left, right } => {
            lemma_key_order(k, key, k);
            match tree_insert(t, k, v) {
                Ok((after, _)) => {
                    match key_order(k, key) {
                        KeyOrder::Equal => {
                            assert(after == Tree::Node { key, size, value: Some(v), left, right });
                            assert forall|x: Seq<char>| holds(after, x) <==> holds(t, x) || x
                                == k by {
                            }
                        },
                        KeyOrder::Less => {
                            lemma_insert_keeps_order(*left, k, v);
                            let grown = *after->left;
                            assert(tree_insert(*left, k, v) matches Ok((l, _)) && l == grown);
                            assert(*after->right == *right);
                            assert forall|x: Seq<char>| holds(after, x) <==> holds(t, x) || x
                                == k by {
                                assert(holds(grown, x) <==> holds(*left, x) || x == k);
                            }
                            assert(all_before(grown, key)) by {
                                assert forall|x: Seq<char>| holds(grown, x) implies less(
                                    x,
                                    key,
                                ) by {
                                    assert(holds(grown, x) <==> holds(*left, x) || x == k);
                                }
                            }
                        },
                        KeyOrder::Greater => {
                            lemma_insert_keeps_order(*right, k, v);
                            let grown = *after->right;
                            assert(tree_insert(*right, k, v) matches Ok((r, _)) && r == grown);
                            assert(*after->left == *left);
                            assert forall|x: Seq<char>| holds(after, x) <==> holds(t, x) || x
                                == k by {
                                assert(holds(grown, x) <==> holds(*right, x) || x == k);
                            }
                            assert(all_after(grown, key)) by {
                                assert forall|x: Seq<char>| holds(grown, x) implies less(
                                    key,
                                    x,
                                ) by {
                                    assert(holds(grown, x) <==> holds(*right, x) || x == k);
                                }
                            }
                        },
                    }
                },
                Err(_) => {},
            }
        },
        _ => {},
    }
}

/// Taking the least key out of an ordered tree that can be read in full:
/// the key that leaves stands before all other keys, it leaves with its
/// value, and for every other key the tree answers as before.
pub proof fn lemma_delmin_keeps_order(t: Tree)
    requires
        ordered(t),
        intact(t),
    ensures
        tree_delmin(t) matches Ok((after, min_key, min_value)) ==> {
            &&& ordered(after)
            &&& intact(after)
            &&& holds(t, min_key)
            &&& tree_find(t, min_key) == Ok::<Option<Option<Seq<char>>>, DbError>(
                Some(min_value),
            )
            &&& forall|x: Seq<char>| holds(t, x) && x != min_key ==> less(min_key, x)
            &&& forall|x: Seq<char>| holds(after, x) <==> holds(t, x) && x != min_key
            &&& forall|x: Seq<char>| x != min_key ==> tree_find(after, x) == tree_find(t, x)
        },
    decreases t,
{
    match t {
        Tree::Node { key, size, value, left, right } => {
            match tree_delmin(t) {
                Ok((after, min_key, min_value)) => {
                    lemma_key_order(key, key, key);
                    if *left is Empty {
                        reveal_with_fuel(holds, 2);
                        reveal_with_fuel(tree_find, 2);
                        assert(after == *right && min_key == key && min_value == value);
                        assert forall|x: Seq<char>| holds(t, x) && x != min_key implies less(
                            min_key,
                            x,
                        ) by {
                            assert(holds(*right, x));
                        }
                        assert forall|x: Seq<char>| holds(after, x) <==> holds(t, x) && x
                            != min_key by {
                            if holds(*right, x) {
                                assert(less(key, x));
                            }
                        }
                        assert forall|x: Seq<char>| x != min_key implies tree_find(after, x)
                            == tree_find(t, x) by {
                            lemma_key_order(x, key, x);
                            lemma_find_holds(*right, x);
                            if holds(*right, x) {
                                assert(less(key, x));
                            }
                        }
                    } else {
                        lemma_delmin_keeps_order(*left);
                        let shrunk = *after->left;
                        assert(tree_delmin(*left) matches Ok((l, m, mv)) && l == shrunk && m
                            == min_key && mv == min_value);
                        assert(*after->right == *right && after->key == key);
                        assert(holds(*left, min_key));
                        assert(less(min_key, key));
                        lemma_key_order(min_key, key, min_key);
                        assert forall|x: Seq<char>| holds(t, x) && x != min_key implies less(
                            min_key,
                            x,
                        ) by {
                            if holds(*right, x) {
                                assert(less(key, x));
                                lemma_key_order(min_key, key, x);
                            }
                            if holds(*left, x) {
                                assert(less(min_key, x));
                            }
                        }
                        assert forall|x: Seq<char>| holds(after, x) <==> holds(t, x) && x
                            != min_key by {
                            assert(holds(shrunk, x) <==> holds(*left, x) && x != min_key);
                            if holds(*right, x) {
                                assert(less(key, x));
                                lemma_key_order(min_key, key, x);
                                lemma_key_order(min_key, x, min_key);
                            }
                        }
                        assert(all_before(shrunk, key)) by {
                            assert forall|x: Seq<char>| holds(shrunk, x) implies less(x, key) by {
                                assert(holds(shrunk, x) <==> holds(*left, x) && x != min_key);
                                assert(holds(*left, x));
                            }
                        }
                        assert forall|x: Seq<char>| x != min_key implies tree_find(after, x)
                            == tree_find(t, x) by {
                            assert(tree_find(shrunk, x) == tree_find(*left, x));
                        }
                    }
                },
                Err(_) => {},
            }
        },
        _ => {},
    }
}

/// Deleting a key from an ordered tree that can be read in full: the tree
/// stays ordered, holds all keys but the one that left, no longer finds
/// that key, and answers every other key as before.
pub proof fn lemma_remove_keeps_order(t: Tree, k: Seq<char>)
    requires
        ordered(t),
        intact(t),
    ensures
        tree_remove(t, k) matches Ok(after) ==> {
            &&& ordered(after)
            &&& intact(after)
            &&& forall|x: Seq<char>| holds(after, x) <==> holds(t, x) && x != k
            &&& tree_get(after, k) == Ok::<Option<Seq<char>>, DbError>(None)
            &&& forall|x: Seq<char>| x != k ==> tree_find(after, x) == tree_find(t, x)
        },
    decreases t,
{
    lemma_find_holds(t, k);
    if holds(t, k) {
        lemma_delete_keeps_order(t, k);
        match tree_remove(t, k) {
            Ok(after) => {
                lemma_find_holds(after, k);
            },
            Err(_) => {},
        }
    }
}

/// Deleting a key that an ordered tree holds.
pub proof fn lemma_delete_keeps_order(t: Tree, k: Seq<char>)
    requires
        ordered(t),
        intact(t),
        holds(t, k),
    ensures
        tree_delete(t, k) matches Ok(after) ==> {
            &&& ordered(after)
            &&& intact(after)
            &&& forall|x: Seq<char>| holds(after, x) <==> holds(t, x) && x != k
            &&& forall|x: Seq<char>| x != k ==> tree_find(after, x) == tree_find(t, x)
        },
    decreases t,
{
    match t {
        Tree::Node { key, size, value, left, right } => {
            match tree_delete(t, k) {
                Ok(after) => {
                    lemma_key_order(k, key, k);
                    lemma_key_order(key, key, key);
                    match key_order(k, key) {
                        KeyOrder::Less => {
                            if holds(*right, k) {
                                assert(less(key, k));
                            }
                            assert(holds(*left, k));
                            lemma_delete_keeps_order(*left, k);
                            let shrunk = *after->left;
                            assert(tree_delete(*left, k) matches Ok(l) && l == shrunk);
                            assert(*after->right == *right && after->key == key);
                            assert(all_before(shrunk, key)) by {
                                assert forall|x: Seq<char>| holds(shrunk, x) implies less(
                                    x,
                                    key,
                                ) by {
                                    assert(holds(shrunk, x) <==> holds(*left, x) && x != k);
                                    assert(holds(*left, x));
                                }
                            }
                            assert forall|x: Seq<char>| holds(after, x) <==> holds(t, x) && x
                                != k by {
                                assert(holds(shrunk, x) <==> holds(*left, x) && x != k);
                                if holds(*right, x) {
                                    assert(less(key, x));
                                }
                            }
                            assert forall|x: Seq<char>| x != k implies tree_find(after, x)
                                == tree_find(t, x) by {
                                assert(tree_find(shrunk, x) == tree_find(*left, x));
                            }
                        },
                        KeyOrder::Greater => {
                            if holds(*left, k) {
                                assert(less(k, key));
                            }
                            assert(holds(*right, k));
                            lemma_delete_keeps_order(*right, k);
                            let shrunk = *after->right;
                            assert(tree_delete(*right, k) matches Ok(r) && r == shrunk);
                            assert(*after->left == *left && after->key == key);
                            assert(all_after(shrunk, key)) by {
                                assert forall|x: Seq<char>| holds(shrunk, x) implies less(
                                    key,
                                    x,
                                ) by {
                                    assert(holds(shrunk, x) <==> holds(*right, x) && x != k);
                                    assert(holds(*right, x));
                                }
                            }
                            assert forall|x: Seq<char>| holds(after, x) <==> holds(t, x) && x
                                != k by {
                                assert(holds(shrunk, x) <==> holds(*right, x) && x != k);
                                if holds(*left, x) {
                                    assert(less(x, key));
                                }
                            }
                            assert forall|x: Seq<char>| x != k implies tree_find(after, x)
                                == tree_find(t, x) by {
                                assert(tree_find(shrunk, x) == tree_find(*right, x));
                            }
                        },
                        KeyOrder::Equal => {
                            lemma_delete_at_root(t);
                        },
                    }
                },
                Err(_) => {},
            }
        },
        _ => {},
    }
}

/// Deleting the key of the root of an ordered tree.
pub proof fn lemma_delete_at_root(t: Tree)
    requires
        ordered(t),
        intact(t),
        t is Node,
    ensures
        tree_delete(t, t->key) matches Ok(after) ==> {
            &&& ordered(after)
            &&& intact(after)
            &&& forall|x: Seq<char>| holds(after, x) <==> holds(t, x) && x != t->key
            &&& forall|x: Seq<char>| x != t->key ==> tree_find(after, x) == tree_find(t, x)
        },
{
    let key = t->key;
    let left = *t->left;
    let right = *t->right;
    lemma_key_order(key, key, key);
    reveal_with_fuel(holds, 2);
    reveal_with_fuel(tree_find, 2);
    match tree_delete(t, key) {
        Ok(after) => {
            if !(left is Empty) && !(right is Empty) {
                lemma_delmin_keeps_order(right);
                let min_key = after->key;
                let shrunk = *after->right;
                assert(tree_delmin(right) matches Ok((r, m, mv)) && r == shrunk && m == min_key
                    && mv == after->value);
                assert(*after->left == left);
                assert(holds(right, min_key));
                lemma_find_holds(right, min_key);
                assert(after->value is Some);
                assert(less(key, min_key));
                lemma_key_order(key, min_key, key);
                assert(all_before(left, min_key)) by {
                    assert forall|x: Seq<char>| holds(left, x) implies less(x, min_key) by {
                        assert(less(x, key));
                        lemma_key_order(x, key, min_key);
                    }
                }
                assert(all_after(shrunk, min_key)) by {
                    assert forall|x: Seq<char>| holds(shrunk, x) implies less(min_key, x) by {
                        assert(holds(shrunk, x) <==> holds(right, x) && x != min_key);
                    }
                }
                assert forall|x: Seq<char>| holds(after, x) <==> holds(t, x) && x != key by {
                    assert(holds(shrunk, x) <==> holds(right, x) && x != min_key);
                    if holds(left, x) {
                        assert(less(x, key));
                        lemma_key_order(x, key, x);
                    }
                    if holds(right, x) {
                        assert(less(key, x));
                        lemma_key_order(key, x, key);
                    }
                }
                assert forall|x: Seq<char>| x != key implies tree_find(after, x) == tree_find(
                    t,
                    x,
                ) by {
                    lemma_key_order(x, key, x);
                    lemma_key_order(x, min_key, x);
                    lemma_find_holds(left, x);
                    lemma_find_holds(right, x);
                    if x != min_key {
                        assert(tree_find(shrunk, x) == tree_find(right, x));
                    }
                    if holds(right, x) && x != min_key {
                        assert(less(min_key, x));
                    }
                    if holds(left, x) {
                        assert(less(x, key));
                    }
                    if less(min_key, x) {
                        lemma_key_order(key, min_key, x);
                    }
                    if less(x, key) {
                        lemma_key_order(x, key, min_key);
                    }
                }
            } else {
                assert(after == (if !(left is Empty) {
                    left
                } else {
                    right
                }));
                assert forall|x: Seq<char>| holds(after, x) <==> holds(t, x) && x != key by {
                    if holds(left, x) {
                        assert(less(x, key));
                    }
                    if holds(right, x) {
                        assert(less(key, x));
                    }
                }
                assert forall|x: Seq<char>| x != key implies tree_find(after, x) == tree_find(
                    t,
                    x,
                ) by {
                    lemma_key_order(x, key, x);
                    lemma_find_holds(left, x);
                    lemma_find_holds(right, x);
                    if holds(left, x) {
                        assert(less(x, key));
                    }
                    if holds(right, x) {
                        assert(less(key, x));
                    }
                }
            }
        },
        Err(_) => {},
    }
}

/// Whether the tree `u` is the tree `t` with more of it read: `u` has the
/// nodes, keys, sizes and values of `t`, and where a node or a value of
/// `t` cannot be read, `u` may hold any node or value.
pub open spec fn refines(t: Tree, u: Tree) -> bool
    decreases t,
{
    match t {
        Tree::Empty => u is Empty,
        Tree::Unreadable => !(u is Empty),
        Tree::Node { key, size, value, left, right } => {
            &&& u matches Tree::Node { key: k, size: s, value: v, left: l, right: r }
            &&& k == key
            &&& s == size
            &&& value is Some ==> v == value
            &&& refines(*left, *l)
            &&& refines(*right, *r)
        },
    }
}

/// Every tree is itself with no more of it read.
pub proof fn lemma_refines_same(t: Tree)
    ensures
        refines(t, t),
    decreases t,
{
    match t {
        Tree::Node { key, size, value, left, right } => {
            lemma_refines_same(*left);
            lemma_refines_same(*right);
        },
        _ => {},
    }
}

/// Reading more of a tree twice is reading more of it.
pub proof fn lemma_refines_twice(t: Tree, u: Tree, w: Tree)
    requires
        refines(t, u),
        refines(u, w),
    ensures
        refines(t, w),
    decreases t,
{
    match t {
        Tree::Node { key, size, value, left, right } => {
            lemma_refines_twice(*left, *u->left, *w->left);
            lemma_refines_twice(*right, *u->right, *w->right);
        },
        _ => {},
    }
}

/// Of a tree that can be read in full there is no more to read.
pub proof fn lemma_refines_intact(t: Tree, u: Tree)
    requires
        refines(t, u),
        intact(t),
    ensures
        u == t,
    decreases t,
{
    match t {
        Tree::Node { key, size, value, left, right } => {
            lemma_refines_intact(*left, *u->left);
            lemma_refines_intact(*right, *u->right);
        },
        _ => {},
    }
}

/// What a search found stays found when more of the tree is read.
pub proof fn lemma_refines_get(t: Tree, u: Tree, k: Seq<char>)
    requires
        refines(t, u),
    ensures
        tree_get(t, k) is Ok ==> tree_get(u, k) == tree_get(t, k),
        tree_find(t, k) matches Ok(found) ==> tree_find(u, k) matches Ok(again) && (found is Some
            <==> again is Some),
    decreases t,
{
    match t {
        Tree::Node { key, size, value, left, right } => {
            lemma_refines_get(*left, *u->left, k);
            lemma_refines_get(*right, *u->right, k);
        },
        _ => {},
    }
}

/// Whether all that giving `k` the value `v` makes fresh in the tree `t`
/// can be written to the file: the keys of the nodes on the way to `k`,
/// `k` itself where it is new, and `v`.
pub open spec fn insert_writable(t: Tree, k: Seq<char>, v: Seq<char>) -> bool
    decreases t,
{
    match t {
        Tree::Node { key, size, value, left, right } => text_encodable(key) && (match key_order(
            k,
            key,
        ) {
            KeyOrder::Less => insert_writable(*left, k, v),
            KeyOrder::Greater => insert_writable(*right, k, v),
            KeyOrder::Equal => text_encodable(v),
        }),
        _ => text_encodable(k) && text_encodable(v),
    }
}

/// Whether all that taking the least key out of the tree `t` makes fresh
/// can be written to the file: the keys of the nodes above the node that
/// leaves.
pub open spec fn delmin_writable(t: Tree) -> bool
    decreases t,
{
    match t {
        Tree::Node { key, size, value, left, right } => *left is Empty || (text_encodable(key)
            && delmin_writable(*left)),
        _ => true,
    }
}

/// Whether all that deleting `k` makes fresh in the tree `t` can be
/// written to the file: the keys of the nodes on the way to `k`, and,
/// where the node of `k` has two children, the key that takes its place
/// and the keys above that key in the right subtree.
pub open spec fn delete_writable(t: Tree, k: Seq<char>) -> bool
    decreases t,
{
    match t {
        Tree::Node { key, size, value, left, right } => match key_order(k, key) {
            KeyOrder::Less => text_encodable(key) && delete_writable(*left, k),
            KeyOrder::Greater => text_encodable(key) && delete_writable(*right, k),
            KeyOrder::Equal => if !(*left is Empty) && !(*right is Empty) {
                delmin_writable(*right) && (tree_delmin(*right) matches Ok((_, min_key, _))
                    ==> text_encodable(min_key))
            } else {
                true
            },
        },
        _ => true,
    }
}

/// Whether all that asking `k` to leave makes fresh in the tree `t` can be
/// written to the file; nothing gets fresh where the tree does not hold
/// the key.
pub open spec fn remove_writable(t: Tree, k: Seq<char>) -> bool {
    tree_find(t, k) matches Ok(Some(_)) ==> delete_writable(t, k)
}

/// Whether every key and every value of the tree `t` can be written to
/// the file and read back.
pub open spec fn writable(t: Tree) -> bool
    decreases t,
{
    match t {
        Tree::Empty => true,
        Tree::Unreadable => true,
        Tree::Node { key, size, value, left, right } => {
            &&& text_encodable(key)
            &&& value matches Some(v) ==> text_encodable(v)
            &&& writable(*left)
            &&& writable(*right)
        },
    }
}

} // verus!

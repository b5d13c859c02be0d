//! Agents: the handles that join a payload in memory to its record in
//! the file. An agent holds the payload, or the address of the record, or
//! both; it loads the payload when it is first asked for, and it is stored
//! at most once.

use vstd::prelude::*;
use crate::disk::{
    addr_ok, disk_child, disk_tree, lemma_disk_tree_extends, lemma_disk_tree_same_data,
    lemma_prefix_trans, lemma_record_extends, lemma_record_same_data, lemma_value_extends,
    quotable, record_at, same_data, valid_record, value_at,
};
use crate::error::DbError;
use crate::serde_interface::{json_text_bytes, text_encodable, SerdeJson};
use crate::storage::{FileStorage, SUPERBLOCK};
use crate::tree::{lemma_refines_same, lemma_refines_twice, refines, writable, Tree};

verus! {

/// A tree node as the file holds it.
pub struct TreeNodeHD {
    /// The node's key.
    pub key: String,
    /// The address of the record that holds the node's value.
    pub value_addr: Option<u64>,
    /// The address of the left child's record.
    pub left_addr: Option<u64>,
    /// The address of the right child's record.
    pub right_addr: Option<u64>,
    /// The number of keys in the subtree rooted here.
    pub size: usize,
}

/// What a `TreeNodeHD` holds, with the key as a sequence of characters.
pub struct NodeRecord {
    /// The node's key.
    pub key: Seq<char>,
    /// The address of the record that holds the node's value.
    pub value_addr: Option<u64>,
    /// The address of the left child's record.
    pub left_addr: Option<u64>,
    /// The address of the right child's record.
    pub right_addr: Option<u64>,
    /// The number of keys in the subtree rooted here.
    pub size: usize,
}

impl View for TreeNodeHD {
    type V = NodeRecord;

    open spec fn view(&self) -> NodeRecord {
        NodeRecord {
            key: self.key@,
            value_addr: self.value_addr,
            left_addr: self.left_addr,
            right_addr: self.right_addr,
            size: self.size,
        }
    }
}

/// The agent of a value: the text, the address of its record, or both.
pub struct StringAgent {
    /// The text, once it is loaded or before it is stored.
    pub inner: Option<String>,
    /// The address of the record, once the text is stored.
    pub addr: Option<u64>,
}

/// The agent of a tree node: the node, the address of its record, or
/// both.
pub struct TreeNodeAgent {
    /// The node, once it is loaded or before it is stored.
    pub inner: Option<Box<TreeNode>>,
    /// The address of the record, once the node is stored.
    pub addr: Option<u64>,
}

/// A tree node in memory.
pub struct TreeNode {
    /// The node's key.
    pub key: String,
    /// The number of keys in the subtree rooted here.
    pub size: usize,
    /// The agent of the node's value.
    pub value_agent: StringAgent,
    /// The agent of the left child, whose keys stand before the node's.
    pub left_agent: Option<Box<TreeNodeAgent>>,
    /// The agent of the right child, whose keys stand after the node's.
    pub right_agent: Option<Box<TreeNodeAgent>>,
}

/// What every agent offers: it is made from a payload or from an address,
/// hands out the payload, which it loads when it is first asked for, and
/// stores the payload once.
pub trait Agent: Sized {
    /// The payload.
    type Inner;

    /// The address of the agent's record, if it has one.
    spec fn address(&self) -> Option<u64>;

    /// Whether the agent is well formed, given the file `f`.
    spec fn well_formed(&self, f: Seq<u8>) -> bool;

    /// The payload that the agent holds in memory, if it holds one.
    spec fn cached(&self) -> Option<Self::Inner>;

    /// Why the payload cannot be had, if it cannot, given the file `f`:
    /// the agent holds neither a payload nor an address, or the record at
    /// its address cannot be read.
    spec fn failure(&self, f: Seq<u8>) -> Option<DbError>;

    /// Whether the payload that the agent holds, and all that it refers to
    /// and that has no address yet, can be written to the file.
    spec fn storable(&self) -> bool;

    /// Whether `payload` is the payload that the agent stands for, given
    /// the file `f`: the one that it holds, or else the one that the
    /// record at its address holds.
    spec fn stands_for(&self, f: Seq<u8>, payload: Self::Inner) -> bool;

    /// A new agent, from a payload that is yet to be stored or from the
    /// address of a record that is yet to be loaded.
    fn new(inner: Option<Self::Inner>, addr: Option<u64>) -> (agent: Self)
        ensures
            agent.address() == addr,
            agent.cached() == inner,
    ;

    /// The address of the agent's record, if it has one.
    fn addr(&self) -> (addr: Option<u64>)
        ensures
            addr == self.address(),
    ;

    /// The payload for changing. An agent that holds no payload loads it
    /// from the record at its address and holds it from then on; the call
    /// fails, and leaves the agent as it is, where the payload cannot be
    /// had. The agent keeps its address, and ends up holding whatever the
    /// caller makes of the payload.
    fn get_mut(&mut self, storage: &FileStorage) -> (r: Result<&mut Self::Inner, DbError>)
        ensures
            final(self).address() == old(self).address(),
            match r {
                Ok(payload) => {
                    &&& old(self).failure(storage@) is None
                    &&& old(self).stands_for(storage@, *payload)
                    &&& final(self).cached() == Some(*final(payload))
                },
                Err(e) => old(self).failure(storage@) == Some(e) && *final(self) == *old(self),
            },
    ;

    /// The payload. An agent that holds no payload loads it from the
    /// record at its address and holds it from then on; the call fails,
    /// and leaves the agent as it is, where the payload cannot be had.
    fn get(&mut self, storage: &FileStorage) -> (r: Result<&Self::Inner, DbError>)
        ensures
            final(self).address() == old(self).address(),
            old(self).well_formed(storage@) ==> final(self).well_formed(storage@),
            match r {
                Ok(payload) => {
                    &&& old(self).failure(storage@) is None
                    &&& old(self).stands_for(storage@, *payload)
                    &&& final(self).cached() == Some(*payload)
                },
                Err(e) => old(self).failure(storage@) == Some(e) && *final(self) == *old(self),
            },
    ;

    /// Writes the payload to the end of the file, unless the agent has an
    /// address: a record is written once and never again, and no byte
    /// that the file holds changes.
    fn store(&mut self, storage: &mut FileStorage) -> (r: Result<(), DbError>)
        requires
            old(self).well_formed(old(storage)@),
            old(storage).wf(),
        ensures
            final(storage).wf(),
            old(storage)@.is_prefix_of(final(storage)@),
            final(self).well_formed(final(storage)@),
            r == (if old(self).address() is Some || old(self).storable() {
                Ok::<(), DbError>(())
            } else {
                Err::<(), DbError>(DbError::Codec)
            }),
            old(self).address() is Some ==> {
                &&& final(self).address() == old(self).address()
                &&& final(storage)@ == old(storage)@
            },
            old(self).address() is None && r is Ok ==> (final(self).address() matches Some(a)
                && a >= old(storage)@.len()),
            r is Err ==> final(self).address() is None,
    ;
}

impl Agent for StringAgent {
    type Inner = String;

    open spec fn address(&self) -> Option<u64> {
        self.addr
    }

    open spec fn well_formed(&self, f: Seq<u8>) -> bool {
        self.wf(f)
    }

    open spec fn cached(&self) -> Option<String> {
        self.inner
    }

    open spec fn failure(&self, f: Seq<u8>) -> Option<DbError> {
        self.fault(f)
    }

    open spec fn storable(&self) -> bool {
        self.inner matches Some(s) && text_encodable(s@)
    }

    open spec fn stands_for(&self, f: Seq<u8>, payload: String) -> bool {
        self.text(f) == Some(payload@)
    }

    fn new(inner: Option<String>, addr: Option<u64>) -> (agent: StringAgent) {
        StringAgent::new(inner, addr)
    }

    fn addr(&self) -> (addr: Option<u64>) {
        StringAgent::addr(self)
    }

    fn get_mut(&mut self, storage: &FileStorage) -> (r: Result<&mut String, DbError>) {
        StringAgent::get_mut(self, storage)
    }

    fn get(&mut self, storage: &FileStorage) -> (r: Result<&String, DbError>) {
        StringAgent::get(self, storage)
    }

    fn store(&mut self, storage: &mut FileStorage) -> (r: Result<(), DbError>) {
        StringAgent::store(self, storage)
    }
}

impl Agent for TreeNodeAgent {
    type Inner = TreeNode;

    open spec fn address(&self) -> Option<u64> {
        self.addr
    }

    open spec fn well_formed(&self, f: Seq<u8>) -> bool {
        self.wf(f)
    }

    open spec fn cached(&self) -> Option<TreeNode> {
        match self.inner {
            Some(node) => Some(*node),
            None => None,
        }
    }

    open spec fn failure(&self, f: Seq<u8>) -> Option<DbError> {
        self.fault(f)
    }

    open spec fn storable(&self) -> bool {
        self.encodable()
    }

    open spec fn stands_for(&self, f: Seq<u8>, payload: TreeNode) -> bool {
        &&& payload.tree(f) == self.tree(f)
        &&& self.wf(f) ==> payload.wf(f)
    }

    fn new(inner: Option<TreeNode>, addr: Option<u64>) -> (agent: TreeNodeAgent) {
        TreeNodeAgent::new(inner, addr)
    }

    fn addr(&self) -> (addr: Option<u64>) {
        TreeNodeAgent::addr(self)
    }

    fn get_mut(&mut self, storage: &FileStorage) -> (r: Result<&mut TreeNode, DbError>) {
        TreeNodeAgent::get_mut(self, storage)
    }

    fn get(&mut self, storage: &FileStorage) -> (r: Result<&TreeNode, DbError>) {
        TreeNodeAgent::get(self, storage)
    }

    fn store(&mut self, storage: &mut FileStorage) -> (r: Result<(), DbError>) {
        TreeNodeAgent::store(self, storage)
    }
}

/// The agent that holds the address `addr` and no node; none for no
/// address.
pub open spec fn bare(addr: Option<u64>) -> Option<Box<TreeNodeAgent>> {
    match addr {
        Some(a) => Some(Box::new(TreeNodeAgent { inner: None, addr: Some(a) })),
        None => None,
    }
}

/// The address of an optional agent.
pub open spec fn agent_addr(agent: Option<Box<TreeNodeAgent>>) -> Option<u64> {
    match agent {
        Some(a) => a.addr,
        None => None,
    }
}

/// The tree that an optional agent stands for, given the file `f`.
pub open spec fn subtree(agent: Option<Box<TreeNodeAgent>>, f: Seq<u8>) -> Tree
    decreases agent,
{
    match agent {
        Some(a) => a.tree(f),
        None => Tree::Empty,
    }
}

/// Whether an optional agent is well formed, given the file `f`.
pub open spec fn subtree_wf(agent: Option<Box<TreeNodeAgent>>, f: Seq<u8>) -> bool
    decreases agent,
{
    match agent {
        Some(a) => a.wf(f),
        None => true,
    }
}

/// Whether every node and every value that an optional agent holds has
/// an address.
pub open spec fn subtree_stored(agent: Option<Box<TreeNodeAgent>>) -> bool
    decreases agent,
{
    match agent {
        Some(a) => a.stored(),
        None => true,
    }
}

/// Whether the fresh nodes of an optional agent can be written to the
/// file.
pub open spec fn subtree_encodable(agent: Option<Box<TreeNodeAgent>>) -> bool
    decreases agent,
{
    match agent {
        Some(a) => a.encodable(),
        None => true,
    }
}

impl StringAgent {
    /// The text that the agent stands for, given the file `f`; `None`
    /// where it has to be read and cannot be.
    pub open spec fn text(self, f: Seq<u8>) -> Option<Seq<char>> {
        match self.inner {
            Some(s) => Some(s@),
            None => match self.addr {
                Some(a) => value_at(f, a),
                None => None,
            },
        }
    }

    /// The agent holds a text or an address; an address lies in the file,
    /// and a text that has an address is the text of the record there.
    pub open spec fn wf(self, f: Seq<u8>) -> bool {
        &&& self.inner is Some || self.addr is Some
        &&& self.addr matches Some(a) ==> addr_ok(f, a)
        &&& self.addr matches Some(a) ==> (self.inner matches Some(s) ==> value_at(f, a)
            == Some(s@))
    }

    /// Whether the value can be written to the file, if it has to be.
    pub open spec fn encodable(self) -> bool {
        self.addr is Some || (self.inner matches Some(s) && text_encodable(s@))
    }

    /// Why the text cannot be had, if it cannot: the agent holds neither a
    /// text nor an address, or the record at its address cannot be read.
    pub open spec fn fault(self, f: Seq<u8>) -> Option<DbError> {
        if self.inner is None && self.addr is None {
            Some(DbError::Invariant)
        } else if self.text(f) is None {
            Some(DbError::Codec)
        } else {
            None
        }
    }

    /// A new agent, from a text that is yet to be stored or from the
    /// address of a record that is yet to be loaded.
    pub fn new(inner: Option<String>, addr: Option<u64>) -> (agent: StringAgent)
        ensures
            agent.inner == inner,
            agent.addr == addr,
    {
        StringAgent { inner, addr }
    }

    /// The address of the agent's record, if it has one.
    pub fn addr(&self) -> (addr: Option<u64>)
        ensures
            addr == self.addr,
    {
        self.addr
    }

    /// Loads the text from the file unless the agent holds it.
    pub fn load(&mut self, storage: &FileStorage) -> (r: Result<(), DbError>)
        ensures
            final(self).addr == old(self).addr,
            final(self).text(storage@) == old(self).text(storage@),
            old(self).wf(storage@) ==> final(self).wf(storage@),
            r == (match old(self).fault(storage@) {
                Some(e) => Err::<(), DbError>(e),
                None => Ok::<(), DbError>(()),
            }),
            r is Ok ==> final(self).inner is Some,
            r is Err ==> *final(self) == *old(self),
    {
        if self.inner.is_some() {
            return Ok(());
        }
        let addr: u64 = match self.addr {
            Some(addr) => addr,
            None => { return Err(DbError::Invariant); },
        };
        if addr < SUPERBLOCK || addr >= storage.len() {
            return Err(DbError::Codec);
        }
        match SerdeJson::from_reader(storage.tail(addr)) {
            Ok((text, _)) => {
                self.inner = Some(text);
                Ok(())
            },
            Err(e) => Err(e),
        }
    }

    /// The text of the agent, loaded from the file if need be.
    pub fn get(&mut self, storage: &FileStorage) -> (r: Result<&String, DbError>)
        ensures
            final(self).addr == old(self).addr,
            final(self).text(storage@) == old(self).text(storage@),
            old(self).wf(storage@) ==> final(self).wf(storage@),
            match r {
                Ok(text) => {
                    &&& old(self).fault(storage@) is None
                    &&& old(self).text(storage@) == Some(text@)
                    &&& final(self).inner == Some(*text)
                },
                Err(e) => old(self).fault(storage@) == Some(e) && *final(self) == *old(self),
            },
    {
        match self.load(storage) {
            Ok(()) => {},
            Err(e) => { return Err(e); },
        }
        match &self.inner {
            Some(text) => Ok(text),
            None => Err(DbError::Invariant),
        }
    }

    /// The text of the agent for changing, loaded from the file if need
    /// be. The agent keeps its address: a text that has one is not written
    /// again, so whoever changes it parts the agent from its record.
    pub fn get_mut(&mut self, storage: &FileStorage) -> (r: Result<&mut String, DbError>)
        ensures
            match r {
                Ok(text) => {
                    &&& old(self).fault(storage@) is None
                    &&& old(self).text(storage@) == Some(text@)
                    &&& final(self).inner == Some(*final(text))
                    &&& final(self).addr == old(self).addr
                },
                Err(e) => old(self).fault(storage@) == Some(e) && *final(self) == *old(self),
            },
    {
        match self.load(storage) {
            Ok(()) => {},
            Err(e) => { return Err(e); },
        }
        match &mut self.inner {
            Some(text) => Ok(text),
            None => Err(DbError::Invariant),
        }
    }

    /// Writes the text to the end of the file, unless the agent has an
    /// address: a record is written once and never again.
    pub fn store(&mut self, storage: &mut FileStorage) -> (r: Result<(), DbError>)
        requires
            old(self).wf(old(storage)@),
            old(storage).wf(),
        ensures
            final(storage).wf(),
            old(storage)@.is_prefix_of(final(storage)@),
            final(self).wf(final(storage)@),
            final(self).inner == old(self).inner,
            final(self).text(final(storage)@) == old(self).text(old(storage)@),
            r == (if old(self).encodable() {
                Ok::<(), DbError>(())
            } else {
                Err::<(), DbError>(DbError::Codec)
            }),
            old(self).addr is Some ==> {
                &&& final(self).addr == old(self).addr
                &&& final(storage)@ == old(storage)@
            },
            old(self).addr is None ==> (if old(self).encodable() {
                &&& final(self).addr matches Some(a)
                &&& a == old(storage)@.len()
                &&& json_text_bytes(old(self).inner->0@) matches Some(record)
                &&& final(storage)@ == old(storage)@ + record
                &&& value_at(final(storage)@, a) == Some(old(self).inner->0@)
            } else {
                &&& final(self).addr is None
                &&& final(storage)@ == old(storage)@
            }),
    {
        if self.addr.is_some() {
            return Ok(());
        }
        let mut record: Vec<u8> = Vec::new();
        match &self.inner {
            Some(text) => match SerdeJson::to_writer(&mut record, text) {
                Ok(()) => {},
                Err(e) => { return Err(e); },
            },
            None => { return Err(DbError::Invariant); },
        }
        let addr: u64 = match storage.get_write_addr() {
            Ok(addr) => addr,
            Err(e) => { return Err(e); },
        };
        let ghost before = storage@;
        match storage.write(record.as_slice()) {
            Ok(_) => {},
            Err(e) => { return Err(e); },
        }
        proof {
            assert(storage@.skip(addr as int) =~= record@);
            assert(before =~= storage@.subrange(0, before.len() as int));
            self.lemma_wf_extends(before, storage@);
        }
        self.addr = Some(addr);
        Ok(())
    }

    /// A well-formed agent stays so when the file grows.
    pub proof fn lemma_wf_extends(self, f: Seq<u8>, g: Seq<u8>)
        requires
            f.is_prefix_of(g),
            self.wf(f),
        ensures
            self.wf(g),
    {
        if self.addr is Some && self.inner is Some {
            lemma_value_extends(f, g, self.addr->0);
        }
    }

    /// A text that can be read stays as it is when the file grows.
    pub proof fn lemma_text_extends(self, f: Seq<u8>, g: Seq<u8>)
        requires
            f.is_prefix_of(g),
            self.text(f) is Some,
        ensures
            self.text(g) == self.text(f),
    {
        if self.inner is None && self.addr is Some {
            lemma_value_extends(f, g, self.addr->0);
        }
    }
}

impl TreeNode {
    /// The tree that the node stands for, given the file `f`.
    pub open spec fn tree(self, f: Seq<u8>) -> Tree
        decreases self,
    {
        Tree::Node {
            key: self.key@,
            size: self.size,
            value: self.value_agent.text(f),
            left: Box::new(subtree(self.left_agent, f)),
            right: Box::new(subtree(self.right_agent, f)),
        }
    }

    /// The record that writes the node.
    pub open spec fn record(self) -> NodeRecord {
        NodeRecord {
            key: self.key@,
            value_addr: self.value_agent.addr,
            left_addr: agent_addr(self.left_agent),
            right_addr: agent_addr(self.right_agent),
            size: self.size,
        }
    }

    /// Whether the node is as a record gives it: its value and its
    /// children are agents that hold an address and no payload.
    pub open spec fn unloaded(self) -> bool {
        &&& self.value_agent.inner is None
        &&& self.value_agent.addr is Some
        &&& self.left_agent matches Some(a) ==> a.inner is None && a.addr is Some
        &&& self.right_agent matches Some(a) ==> a.inner is None && a.addr is Some
    }

    /// Whether all that the node refers to has an address.
    pub open spec fn settled(self) -> bool {
        &&& self.value_agent.addr is Some
        &&& self.left_agent matches Some(a) ==> a.addr is Some
        &&& self.right_agent matches Some(a) ==> a.addr is Some
    }

    /// Whether the node and all fresh nodes below it can be written to
    /// the file.
    pub open spec fn encodable(self) -> bool
        decreases self,
    {
        &&& text_encodable(self.key@)
        &&& self.value_agent.encodable()
        &&& subtree_encodable(self.left_agent)
        &&& subtree_encodable(self.right_agent)
    }

    /// The node's value agent and its children are well formed.
    pub open spec fn wf(self, f: Seq<u8>) -> bool
        decreases self,
    {
        &&& self.value_agent.wf(f)
        &&& subtree_wf(self.left_agent, f)
        &&& subtree_wf(self.right_agent, f)
    }

    /// A node without children for a new key and its value.
    pub fn new(key: String, value: String) -> (node: TreeNode)
        ensures
            node.key == key,
            node.size == 1,
            node.value_agent.inner == Some(value),
            node.value_agent.addr is None,
            node.left_agent is None,
            node.right_agent is None,
    {
        TreeNode {
            key,
            value_agent: StringAgent::new(Some(value), None),
            left_agent: None,
            right_agent: None,
            size: 1,
        }
    }

    /// The node that a record stands for: its value and its children are
    /// agents that hold an address and nothing else yet.
    pub fn from(nodehd: TreeNodeHD) -> (node: TreeNode)
        ensures
            node.key == nodehd.key,
            node.size == nodehd.size,
            node.value_agent.inner is None,
            node.value_agent.addr == nodehd.value_addr,
            agent_addr(node.left_agent) == nodehd.left_addr,
            agent_addr(node.right_agent) == nodehd.right_addr,
            node.left_agent matches Some(a) ==> a.inner is None && a.addr is Some,
            node.right_agent matches Some(a) ==> a.inner is None && a.addr is Some,
            node.record() == nodehd@,
    {
        let key = nodehd.key;
        let value_agent = StringAgent::new(None, nodehd.value_addr);
        let left_agent = match nodehd.left_addr {
            Some(addr) => Some(Box::new(TreeNodeAgent::new(None, Some(addr)))),
            None => None,
        };
        let right_agent = match nodehd.right_addr {
            Some(addr) => Some(Box::new(TreeNodeAgent::new(None, Some(addr)))),
            None => None,
        };
        let size = nodehd.size;
        TreeNode { key, value_agent, left_agent, right_agent, size }
    }

    /// Writes what the node refers to: its value, then the fresh nodes of
    /// its left subtree, then those of its right subtree.
    fn store_parts(&mut self, storage: &mut FileStorage) -> (r: Result<(), DbError>)
        requires
            old(self).wf(old(storage)@),
            old(storage).wf(),
        ensures
            final(storage).wf(),
            old(storage)@.is_prefix_of(final(storage)@),
            final(self).wf(final(storage)@),
            final(self).key == old(self).key,
            final(self).size == old(self).size,
            final(self).value_agent.inner == old(self).value_agent.inner,
            refines(old(self).tree(old(storage)@), final(self).tree(final(storage)@)),
            r == (if old(self).value_agent.encodable() && subtree_encodable(old(self).left_agent)
                && subtree_encodable(old(self).right_agent) {
                Ok::<(), DbError>(())
            } else {
                Err::<(), DbError>(DbError::Codec)
            }),
            r is Ok ==> final(self).settled(),
        decreases *old(self),
    {
        let ghost f0 = storage@;
        let ghost value0 = self.value_agent.text(f0);
        let ghost left0 = subtree(self.left_agent, f0);
        let ghost right0 = subtree(self.right_agent, f0);
        proof {
            lemma_refines_same(left0);
            lemma_refines_same(right0);
        }
        let value_stored = self.value_agent.store(storage);
        let ghost f1 = storage@;
        proof {
            lemma_wf_extends(self.left_agent, f0, f1);
            lemma_wf_extends(self.right_agent, f0, f1);
            lemma_tree_extends(self.left_agent, f0, f1);
            lemma_tree_extends(self.right_agent, f0, f1);
        }
        match value_stored {
            Ok(()) => {},
            Err(e) => { return Err(e); },
        }
        let ghost left1 = subtree(self.left_agent, f1);
        let ghost right1 = subtree(self.right_agent, f1);
        let left_stored = store_child(&mut self.left_agent, storage);
        let ghost f2 = storage@;
        let ghost left2 = subtree(self.left_agent, f2);
        let ghost right2 = subtree(self.right_agent, f2);
        proof {
            lemma_prefix_trans(f0, f1, f2);
            self.value_agent.lemma_wf_extends(f1, f2);
            lemma_wf_extends(self.right_agent, f1, f2);
            if value0 is Some {
                self.value_agent.lemma_text_extends(f1, f2);
            }
            lemma_tree_extends(self.right_agent, f1, f2);
            lemma_refines_twice(left0, left1, left2);
            lemma_refines_twice(right0, right1, right2);
        }
        match left_stored {
            Ok(()) => {},
            Err(e) => { return Err(e); },
        }
        let right_stored = store_child(&mut self.right_agent, storage);
        let ghost f3 = storage@;
        proof {
            lemma_prefix_trans(f0, f2, f3);
            self.value_agent.lemma_wf_extends(f2, f3);
            lemma_wf_extends(self.left_agent, f2, f3);
            if value0 is Some {
                self.value_agent.lemma_text_extends(f2, f3);
            }
            lemma_tree_extends(self.left_agent, f2, f3);
            lemma_refines_twice(left0, left2, subtree(self.left_agent, f3));
            lemma_refines_twice(right0, right2, subtree(self.right_agent, f3));
        }
        right_stored
    }

    /// A node that is well formed stays so when the file grows, and
    /// stands for the same tree, but for nodes and values that could not
    /// be read before.
    pub proof fn lemma_extends(self, f: Seq<u8>, g: Seq<u8>)
        requires
            f.is_prefix_of(g),
            self.wf(f),
        ensures
            self.wf(g),
            refines(self.tree(f), self.tree(g)),
    {
        self.value_agent.lemma_wf_extends(f, g);
        lemma_wf_extends(self.left_agent, f, g);
        lemma_wf_extends(self.right_agent, f, g);
        if self.value_agent.text(f) is Some {
            self.value_agent.lemma_text_extends(f, g);
        }
        lemma_tree_extends(self.left_agent, f, g);
        lemma_tree_extends(self.right_agent, f, g);
    }
}

impl TreeNodeHD {
    /// The record that writes `node`, with the addresses that its value
    /// and its children have by now.
    pub fn from(node: &TreeNode) -> (nodehd: TreeNodeHD)
        ensures
            nodehd@ == node.record(),
    {
        TreeNodeHD {
            key: node.key.clone(),
            value_addr: node.value_agent.addr(),
            left_addr: match &node.left_agent {
                Some(agent) => agent.addr(),
                None => None,
            },
            right_addr: match &node.right_agent {
                Some(agent) => agent.addr(),
                None => None,
            },
            size: node.size,
        }
    }
}

impl TreeNodeAgent {
    /// The tree that the agent stands for, given the file `f`.
    pub open spec fn tree(self, f: Seq<u8>) -> Tree
        decreases self,
    {
        match self.inner {
            Some(node) => node.tree(f),
            None => match self.addr {
                Some(a) => disk_tree(f, a),
                None => Tree::Unreadable,
            },
        }
    }

    /// The agent holds a node or an address; an address lies in the file,
    /// and a node that has an address is the node of the record there.
    pub open spec fn wf(self, f: Seq<u8>) -> bool
        decreases self,
    {
        &&& self.addr matches Some(a) ==> addr_ok(f, a)
        &&& match self.inner {
            Some(node) => node.wf(f) && (self.addr matches Some(a) ==> record_at(f, a) == Some(
                node.record(),
            ) && node.settled()),
            None => self.addr is Some,
        }
    }

    /// Whether the fresh nodes of the agent can be written to the file.
    pub open spec fn encodable(self) -> bool
        decreases self,
    {
        self.addr is Some || (match self.inner {
            Some(node) => node.encodable(),
            None => true,
        })
    }

    /// Why the node cannot be had, if it cannot: the agent holds neither a
    /// node nor an address, or the record at its address cannot be read.
    pub open spec fn fault(self, f: Seq<u8>) -> Option<DbError> {
        if self.inner is None && self.addr is None {
            Some(DbError::Invariant)
        } else if self.tree(f) is Unreadable {
            Some(DbError::Codec)
        } else {
            None
        }
    }

    /// The record of the node: the one that writes the node which the
    /// agent holds, or else the record at the agent's address.
    pub open spec fn record(self, f: Seq<u8>) -> NodeRecord {
        match self.inner {
            Some(node) => node.record(),
            None => record_at(f, self.addr->0)->0,
        }
    }

    /// The agent of the node's value: the one of the node that the agent
    /// holds, or else the agent that loading makes, which holds the
    /// address that the record quotes and no text.
    pub open spec fn value_of(self, f: Seq<u8>) -> StringAgent {
        match self.inner {
            Some(node) => node.value_agent,
            None => StringAgent { inner: None, addr: self.record(f).value_addr },
        }
    }

    /// The agent of the node's left child: the one of the node that the
    /// agent holds, or else the agent that loading makes, which holds the
    /// address that the record quotes and no node.
    pub open spec fn left_of(self, f: Seq<u8>) -> Option<Box<TreeNodeAgent>> {
        match self.inner {
            Some(node) => node.left_agent,
            None => bare(self.record(f).left_addr),
        }
    }

    /// The agent of the node's right child, as `left_of` gives the left.
    pub open spec fn right_of(self, f: Seq<u8>) -> Option<Box<TreeNodeAgent>> {
        match self.inner {
            Some(node) => node.right_agent,
            None => bare(self.record(f).right_addr),
        }
    }

    /// Whether `node` is the node of the agent: the node that it holds,
    /// or else the node that loading makes of the record at its address.
    pub open spec fn holds_node(self, f: Seq<u8>, node: TreeNode) -> bool {
        &&& self.inner matches Some(held) ==> node == *held
        &&& node.key@ == self.record(f).key
        &&& node.size == self.record(f).size
        &&& node.value_agent == self.value_of(f)
        &&& node.left_agent == self.left_of(f)
        &&& node.right_agent == self.right_of(f)
    }

    /// Whether the agent and every node and value that it holds has an
    /// address, so that nothing is left to store.
    pub open spec fn stored(self) -> bool
        decreases self,
    {
        &&& self.addr is Some
        &&& match self.inner {
            Some(node) => {
                &&& node.value_agent.addr is Some
                &&& subtree_stored(node.left_agent)
                &&& subtree_stored(node.right_agent)
            },
            None => true,
        }
    }

    /// A new agent, from a node that is yet to be stored or from the
    /// address of a record that is yet to be loaded.
    pub fn new(inner: Option<TreeNode>, addr: Option<u64>) -> (agent: TreeNodeAgent)
        ensures
            agent.addr == addr,
            match inner {
                Some(node) => agent.inner == Some(Box::new(node)),
                None => agent.inner is None,
            },
    {
        TreeNodeAgent {
            inner: match inner {
                Some(node) => Some(Box::new(node)),
                None => None,
            },
            addr,
        }
    }

    /// The address of the agent's record, if it has one.
    pub fn addr(&self) -> (addr: Option<u64>)
        ensures
            addr == self.addr,
    {
        self.addr
    }

    /// Loads the node from the file unless the agent holds it. The tree
    /// that the agent stands for stays as it is.
    pub fn load(&mut self, storage: &FileStorage) -> (r: Result<(), DbError>)
        ensures
            final(self).addr == old(self).addr,
            final(self).tree(storage@) == old(self).tree(storage@),
            old(self).wf(storage@) ==> final(self).wf(storage@),
            old(self).stored() ==> final(self).stored(),
            r == (match old(self).fault(storage@) {
                Some(e) => Err::<(), DbError>(e),
                None => Ok::<(), DbError>(()),
            }),
            r is Ok ==> final(self).inner is Some,
            r is Err ==> *final(self) == *old(self),
            old(self).inner is Some ==> *final(self) == *old(self),
            old(self).inner is None && r is Ok ==> {
                &&& final(self).inner matches Some(node)
                &&& record_at(storage@, old(self).addr->0) == Some(node.record())
                &&& node.unloaded()
            },
            r is Ok ==> (final(self).inner matches Some(node) && old(self).holds_node(
                storage@,
                *node,
            )),
    {
        if self.inner.is_some() {
            return Ok(());
        }
        let addr: u64 = match self.addr {
            Some(addr) => addr,
            None => { return Err(DbError::Invariant); },
        };
        if addr < SUPERBLOCK || addr >= storage.len() {
            return Err(DbError::Codec);
        }
        let nodehd = match SerdeJson::node_from_reader(storage.tail(addr)) {
            Ok((nodehd, _)) => nodehd,
            Err(e) => { return Err(e); },
        };
        if nodehd.value_addr.is_none() || !may_quote(nodehd.value_addr, addr) || !may_quote(
            nodehd.left_addr,
            addr,
        ) || !may_quote(nodehd.right_addr, addr) {
            return Err(DbError::Codec);
        }
        let node = TreeNode::from(nodehd);
        proof {
            lemma_loaded(node, storage@, addr);
        }
        self.inner = Some(Box::new(node));
        Ok(())
    }

    /// The node of the agent, loaded from the file if need be.
    pub fn get(&mut self, storage: &FileStorage) -> (r: Result<&TreeNode, DbError>)
        ensures
            final(self).addr == old(self).addr,
            final(self).tree(storage@) == old(self).tree(storage@),
            old(self).wf(storage@) ==> final(self).wf(storage@),
            match r {
                Ok(node) => {
                    &&& old(self).fault(storage@) is None
                    &&& final(self).inner == Some(Box::new(*node))
                },
                Err(e) => old(self).fault(storage@) == Some(e) && *final(self) == *old(self),
            },
    {
        match self.load(storage) {
            Ok(()) => {},
            Err(e) => { return Err(e); },
        }
        match &self.inner {
            Some(node) => Ok(node),
            None => Err(DbError::Invariant),
        }
    }

    /// The node of the agent for changing, loaded from the file if need
    /// be. The agent keeps its address: a node that has one is not written
    /// again, so whoever changes it parts the agent from its record.
    pub fn get_mut(&mut self, storage: &FileStorage) -> (r: Result<&mut TreeNode, DbError>)
        ensures
            match r {
                Ok(node) => {
                    &&& old(self).fault(storage@) is None
                    &&& node.tree(storage@) == old(self).tree(storage@)
                    &&& old(self).wf(storage@) ==> node.wf(storage@)
                    &&& final(self).inner == Some(Box::new(*final(node)))
                    &&& final(self).addr == old(self).addr
                },
                Err(e) => old(self).fault(storage@) == Some(e) && *final(self) == *old(self),
            },
    {
        match self.load(storage) {
            Ok(()) => {},
            Err(e) => { return Err(e); },
        }
        match &mut self.inner {
            Some(node) => Ok(node),
            None => Err(DbError::Invariant),
        }
    }

    /// Writes the fresh nodes of the agent to the end of the file, each
    /// after its value and its children, so that a record only refers to
    /// what the file holds already. An agent that has an address is left
    /// alone: a record is written once and never again.
    pub fn store(&mut self, storage: &mut FileStorage) -> (r: Result<(), DbError>)
        requires
            old(self).wf(old(storage)@),
            old(storage).wf(),
        ensures
            final(storage).wf(),
            old(storage)@.is_prefix_of(final(storage)@),
            final(self).wf(final(storage)@),
            refines(old(self).tree(old(storage)@), final(self).tree(final(storage)@)),
            old(self).addr is Some ==> *final(self) == *old(self) && final(storage)@ == old(
                storage,
            )@,
            r == (if old(self).encodable() {
                Ok::<(), DbError>(())
            } else {
                Err::<(), DbError>(DbError::Codec)
            }),
            r is Ok ==> final(self).stored(),
            r is Err ==> final(self).addr is None,
            old(self).inner matches Some(before) ==> {
                &&& final(self).inner matches Some(after)
                &&& after.key == before.key
                &&& after.size == before.size
                &&& after.value_agent.inner == before.value_agent.inner
            },
            old(self).addr is None && r is Ok ==> {
                &&& final(self).addr matches Some(a)
                &&& a >= old(storage)@.len()
                &&& final(self).inner matches Some(node)
                &&& node.settled()
                &&& record_at(final(storage)@, a) == Some(node.record())
            },
        decreases *old(self),
    {
        proof {
            lemma_refines_same(self.tree(storage@));
        }
        if self.addr.is_some() {
            proof {
                lemma_agent_stored(*self, storage@);
            }
            return Ok(());
        }
        let node = match &mut self.inner {
            Some(node) => node,
            None => { return Ok(()); },
        };
        let ghost tree0 = node.tree(storage@);
        match node.store_parts(storage) {
            Ok(()) => {},
            Err(e) => { return Err(e); },
        }
        let ghost tree1 = node.tree(storage@);
        let nodehd = TreeNodeHD::from(node);
        let mut record: Vec<u8> = Vec::new();
        match SerdeJson::node_to_writer(&mut record, &nodehd) {
            Ok(()) => {},
            Err(e) => { return Err(e); },
        }
        let ghost before = storage@;
        let addr: u64 = match storage.get_write_addr() {
            Ok(addr) => addr,
            Err(e) => { return Err(e); },
        };
        match storage.write(record.as_slice()) {
            Ok(_) => {},
            Err(e) => { return Err(e); },
        }
        proof {
            let after = storage@;
            assert(after.skip(addr as int) =~= record@);
            assert(before =~= after.subrange(0, before.len() as int));
            lemma_prefix_trans(old(storage)@, before, after);
            node.lemma_extends(before, after);
            lemma_refines_twice(tree0, tree1, node.tree(after));
            assert(valid_record(node.record(), addr));
        }
        self.addr = Some(addr);
        proof {
            lemma_agent_stored(*self, storage@);
        }
        Ok(())
    }
}

impl Clone for StringAgent {
    /// A second agent for the same value.
    fn clone(&self) -> (agent: StringAgent)
        ensures
            agent == *self,
    {
        StringAgent {
            inner: match &self.inner {
                Some(text) => Some(text.clone()),
                None => None,
            },
            addr: self.addr,
        }
    }
}

impl Clone for TreeNodeAgent {
    /// A copy of the agent and of all that it has loaded.
    fn clone(&self) -> (agent: TreeNodeAgent)
        ensures
            agent == *self,
        decreases self,
    {
        TreeNodeAgent {
            inner: match &self.inner {
                Some(node) => Some(Box::new((&**node).clone())),
                None => None,
            },
            addr: self.addr,
        }
    }
}

impl Clone for TreeNode {
    /// A copy of the node: the same key, size, value and children.
    fn clone(&self) -> (node: TreeNode)
        ensures
            node == *self,
        decreases self,
    {
        TreeNode {
            key: self.key.clone(),
            value_agent: self.value_agent.clone(),
            left_agent: match &self.left_agent {
                Some(agent) => Some(Box::new((&**agent).clone())),
                None => None,
            },
            right_agent: match &self.right_agent {
                Some(agent) => Some(Box::new((&**agent).clone())),
                None => None,
            },
            size: self.size,
        }
    }
}

/// Writes the fresh nodes below an optional agent.
fn store_child(child: &mut Option<Box<TreeNodeAgent>>, storage: &mut FileStorage) -> (r:
    Result<(), DbError>)
    requires
        subtree_wf(*old(child), old(storage)@),
        old(storage).wf(),
    ensures
        final(storage).wf(),
        old(storage)@.is_prefix_of(final(storage)@),
        subtree_wf(*final(child), final(storage)@),
        refines(subtree(*old(child), old(storage)@), subtree(*final(child), final(storage)@)),
        r == (if subtree_encodable(*old(child)) {
            Ok::<(), DbError>(())
        } else {
            Err::<(), DbError>(DbError::Codec)
        }),
        r is Ok ==> (*final(child) matches Some(a) ==> a.addr is Some),
        r is Ok ==> subtree_stored(*final(child)),
        subtree_stored(*old(child)) ==> *final(child) == *old(child) && final(storage)@ == old(
            storage,
        )@,
    decreases *old(child),
{
    match child {
        Some(agent) => agent.store(storage),
        None => Ok(()),
    }
}

/// Whether a record at `addr` may quote the address `child`.
fn may_quote(child: Option<u64>, addr: u64) -> (ok: bool)
    ensures
        ok == quotable(child, addr),
{
    match child {
        Some(c) => SUPERBLOCK <= c && c < addr,
        None => true,
    }
}

/// A well-formed agent that has an address has nothing left to store:
/// all that it refers to was stored before it.
pub proof fn lemma_wf_stored(agent: Option<Box<TreeNodeAgent>>, f: Seq<u8>)
    requires
        subtree_wf(agent, f),
    ensures
        agent_addr(agent) is Some ==> subtree_stored(agent),
    decreases agent,
{
    match agent {
        Some(a) => match a.inner {
            Some(node) => {
                lemma_wf_stored(node.left_agent, f);
                lemma_wf_stored(node.right_agent, f);
                if a.addr is Some {
                    assert(node.settled());
                    assert(subtree_stored(node.left_agent));
                    assert(subtree_stored(node.right_agent));
                    assert(a.stored());
                }
            },
            None => {
                if a.addr is Some {
                    assert(a.stored());
                }
            },
        },
        None => {},
    }
}

/// A well-formed agent that has an address has nothing left to store.
pub proof fn lemma_agent_stored(agent: TreeNodeAgent, f: Seq<u8>)
    requires
        agent.wf(f),
        agent.addr is Some,
    ensures
        agent.stored(),
{
    lemma_wf_stored(Some(Box::new(agent)), f);
}

/// Where nothing is left to store, all that is left to store can be
/// written.
pub proof fn lemma_stored_encodable(agent: Option<Box<TreeNodeAgent>>)
    requires
        subtree_stored(agent),
    ensures
        subtree_encodable(agent),
{
}

/// A fresh node can be written exactly when its key, its value and the
/// fresh nodes below it can be.
pub proof fn lemma_fresh_encodable(agent: Option<Box<TreeNodeAgent>>)
    requires
        agent matches Some(a) && a.addr is None && a.inner is Some,
    ensures
        subtree_encodable(agent) <==> {
            let node = agent->0.inner->0;
            &&& text_encodable(node.key@)
            &&& node.value_agent.encodable()
            &&& subtree_encodable(node.left_agent)
            &&& subtree_encodable(node.right_agent)
        },
{
}

/// An agent never stands for the empty tree.
pub proof fn lemma_agent_not_empty(agent: TreeNodeAgent, f: Seq<u8>)
    ensures
        !(agent.tree(f) is Empty),
{
    match agent.inner {
        Some(node) => {
            assert(agent.tree(f) == node.tree(f));
        },
        None => match agent.addr {
            Some(a) => {
                assert(agent.tree(f) == disk_tree(f, a));
            },
            None => {},
        },
    }
}

/// A node that was made from the record at `addr` stands for the tree
/// that the file holds at `addr`, and is well formed.
pub proof fn lemma_loaded(node: TreeNode, f: Seq<u8>, addr: u64)
    requires
        record_at(f, addr) == Some(node.record()),
        node.value_agent.inner is None,
        node.left_agent matches Some(a) ==> a.inner is None && a.addr is Some,
        node.right_agent matches Some(a) ==> a.inner is None && a.addr is Some,
    ensures
        node.tree(f) == disk_tree(f, addr),
        node.wf(f),
        node.value_agent.addr is Some,
        subtree_stored(node.left_agent),
        subtree_stored(node.right_agent),
{
    let record = node.record();
    assert(valid_record(record, addr));
    assert(node.value_agent.text(f) == value_at(f, record.value_addr->0));
    assert(subtree(node.left_agent, f) == disk_child(f, record.left_addr, addr)) by {
        match node.left_agent {
            Some(a) => {
                assert(a.tree(f) == disk_tree(f, a.addr->0));
            },
            None => {},
        }
    }
    assert(subtree(node.right_agent, f) == disk_child(f, record.right_addr, addr)) by {
        match node.right_agent {
            Some(a) => {
                assert(a.tree(f) == disk_tree(f, a.addr->0));
            },
            None => {},
        }
    }
    assert(subtree_wf(node.left_agent, f)) by {
        match node.left_agent {
            Some(a) => {
                assert(a.wf(f));
            },
            None => {},
        }
    }
    assert(subtree_wf(node.right_agent, f)) by {
        match node.right_agent {
            Some(a) => {
                assert(a.wf(f));
            },
            None => {},
        }
    }
}

/// An agent graph that is well formed stays so when the file grows.
pub proof fn lemma_wf_extends(agent: Option<Box<TreeNodeAgent>>, f: Seq<u8>, g: Seq<u8>)
    requires
        f.is_prefix_of(g),
        subtree_wf(agent, f),
    ensures
        subtree_wf(agent, g),
    decreases agent,
{
    match agent {
        Some(a) => {
            match a.inner {
                Some(node) => {
                    node.value_agent.lemma_wf_extends(f, g);
                    lemma_wf_extends(node.left_agent, f, g);
                    lemma_wf_extends(node.right_agent, f, g);
                    if a.addr is Some {
                        lemma_record_extends(f, g, a.addr->0);
                    }
                },
                None => {},
            }
        },
        None => {},
    }
}

/// When the file grows, the tree that an agent graph stands for stays as
/// it is, but for nodes and values that could not be read before.
pub proof fn lemma_tree_extends(agent: Option<Box<TreeNodeAgent>>, f: Seq<u8>, g: Seq<u8>)
    requires
        f.is_prefix_of(g),
    ensures
        refines(subtree(agent, f), subtree(agent, g)),
    decreases agent,
{
    match agent {
        Some(a) => {
            match a.inner {
                Some(node) => {
                    if node.value_agent.text(f) is Some {
                        node.value_agent.lemma_text_extends(f, g);
                    }
                    lemma_tree_extends(node.left_agent, f, g);
                    lemma_tree_extends(node.right_agent, f, g);
                },
                None => match a.addr {
                    Some(addr) => {
                        lemma_disk_tree_extends(f, g, addr);
                    },
                    None => {},
                },
            }
        },
        None => {},
    }
}

/// An agent that has an address stands for the tree that the file holds
/// at that address.
pub proof fn lemma_synced(agent: TreeNodeAgent, f: Seq<u8>)
    requires
        agent.wf(f),
        agent.addr is Some,
    ensures
        disk_tree(f, agent.addr->0) == agent.tree(f),
    decreases agent,
{
    let addr = agent.addr->0;
    match agent.inner {
        Some(node) => {
            let record = node.record();
            assert(valid_record(record, addr));
            assert(node.value_agent.text(f) == value_at(f, record.value_addr->0));
            assert(subtree(node.left_agent, f) == disk_child(f, record.left_addr, addr)) by {
                match node.left_agent {
                    Some(a) => {
                        lemma_synced(*a, f);
                    },
                    None => {},
                }
            }
            assert(subtree(node.right_agent, f) == disk_child(f, record.right_addr, addr)) by {
                match node.right_agent {
                    Some(a) => {
                        lemma_synced(*a, f);
                    },
                    None => {},
                }
            }
        },
        None => {},
    }
}

/// An agent graph depends on the data region alone: it stays well formed
/// and stands for the same tree when only the superblock changes.
pub proof fn lemma_same_data(agent: Option<Box<TreeNodeAgent>>, f: Seq<u8>, g: Seq<u8>)
    requires
        same_data(f, g),
    ensures
        subtree_wf(agent, f) ==> subtree_wf(agent, g),
        subtree(agent, g) == subtree(agent, f),
    decreases agent,
{
    match agent {
        Some(a) => {
            if a.addr is Some {
                lemma_record_same_data(f, g, a.addr->0);
            }
            match a.inner {
                Some(node) => {
                    if node.value_agent.addr is Some {
                        lemma_record_same_data(f, g, node.value_agent.addr->0);
                    }
                    lemma_same_data(node.left_agent, f, g);
                    lemma_same_data(node.right_agent, f, g);
                },
                None => match a.addr {
                    Some(addr) => {
                        lemma_disk_tree_same_data(f, g, addr);
                    },
                    None => {},
                },
            }
        },
        None => {},
    }
}

/// The fresh nodes of an agent graph can be written if every key and
/// every value of its tree can be.
pub proof fn lemma_writable(agent: Option<Box<TreeNodeAgent>>, f: Seq<u8>)
    requires
        subtree_wf(agent, f),
        writable(subtree(agent, f)),
    ensures
        subtree_encodable(agent),
    decreases agent,
{
    match agent {
        Some(a) => match a.inner {
            Some(node) => {
                lemma_writable(node.left_agent, f);
                lemma_writable(node.right_agent, f);
            },
            None => {},
        },
        None => {},
    }
}

} // verus!

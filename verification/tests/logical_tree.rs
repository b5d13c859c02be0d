use dbdb::agent::{StringAgent, TreeNode, TreeNodeAgent, TreeNodeHD};
use dbdb::error::DbError;
use dbdb::logical_tree::{BinaryTree, LogicalTree};
use dbdb::storage::{FileStorage, SUPERBLOCK};

/// The bytes of the file that `tree` works on, as another handle would
/// find them on opening the same path.
fn file_of(tree: &LogicalTree<BinaryTree>) -> Vec<u8> {
    tree.storage().as_bytes().clone()
}

/// The data region of a file as text.
fn data_of(file: &[u8]) -> String {
    String::from_utf8(file[SUPERBLOCK as usize..].to_vec()).unwrap()
}

/// A file with the given data region whose superblock records `root`.
fn file_with(data: &str, root: u64) -> Vec<u8> {
    let mut storage = FileStorage::new(Vec::new()).unwrap();
    storage.write(data.as_bytes()).unwrap();
    storage.commit_root_addr(root).unwrap();
    storage.as_bytes().clone()
}

fn put(tree: &mut LogicalTree<BinaryTree>, key: &str, value: &str) {
    tree.put(key.to_owned(), value.to_owned()).unwrap();
}

fn get(tree: &mut LogicalTree<BinaryTree>, key: &str) -> Option<String> {
    tree.get(key).unwrap()
}

#[test]
fn test_binary_tree_no_dirty_read() {
    let mut tree = LogicalTree::<BinaryTree>::new(Vec::new()).unwrap();
    let mut another_tree = LogicalTree::<BinaryTree>::new(file_of(&tree)).unwrap();
    assert_eq!(None, another_tree.get("a").unwrap());
    tree.begin().unwrap();
    tree.put("a".to_owned(), "1".to_owned()).unwrap();
    // we can't read the new a:1 pair in another tree
    another_tree = LogicalTree::<BinaryTree>::new(file_of(&tree)).unwrap();
    assert_eq!(None, another_tree.get("a").unwrap());
    tree.commit().unwrap();
    // we can see the new pair after committing
    another_tree = LogicalTree::<BinaryTree>::new(file_of(&tree)).unwrap();
    assert_eq!(Some("1".to_owned()), another_tree.get("a").unwrap());
}

#[test]
fn test_binary_tree_in_memory() {
    let mut tree = LogicalTree::<BinaryTree>::new(Vec::new()).unwrap();
    tree.begin().unwrap();
    // get nothing
    assert_eq!(None, tree.get("hi").unwrap());

    // put get delete and get nothing
    tree.put("a".to_owned(), "1".to_owned()).unwrap();
    assert_eq!(Some("1".to_owned()), tree.get("a").unwrap());
    tree.del("a").unwrap();
    assert_eq!(None, tree.get("a").unwrap());

    tree.put("c".to_owned(), "3".to_owned()).unwrap();
    tree.put("a".to_owned(), "1".to_owned()).unwrap();
    tree.put("d".to_owned(), "4".to_owned()).unwrap();
    assert_eq!(None, tree.get("zoo").unwrap());
    tree.del("zoo").unwrap();
    assert_eq!(None, tree.get("zoo").unwrap());
    tree.del("c").unwrap();
    assert_eq!(None, tree.get("c").unwrap());
    assert_eq!(Some("4".to_owned()), tree.get("d").unwrap());
    assert_eq!(Some("1".to_owned()), tree.get("a").unwrap());
    // no commit here
}

#[test]
fn test_binary_tree_store() {
    let mut tree = LogicalTree::<BinaryTree>::new(Vec::new()).unwrap();
    tree.begin().unwrap();
    tree.put("hello".to_owned(), "world".to_owned()).unwrap();
    tree.put("hi".to_owned(), "alice".to_owned()).unwrap();
    tree.put("arc".to_owned(), "shadow".to_owned()).unwrap();
    tree.put("before".to_owned(), "end".to_owned()).unwrap();
    tree.commit().unwrap();
    let file = file_of(&tree);
    drop(tree);
    let mut tree = LogicalTree::<BinaryTree>::new(file).unwrap();
    assert_eq!(Some("shadow".to_owned()), tree.get("arc").unwrap());
    assert_eq!(None, tree.get("zoo").unwrap());
}

#[test]
fn put_and_get_in_memory() {
    let mut tree = LogicalTree::<BinaryTree>::new(Vec::new()).unwrap();
    put(&mut tree, "hello", "world");
    put(&mut tree, "hi", "alice");
    put(&mut tree, "arc", "shadow");
    put(&mut tree, "before", "end");
    assert_eq!(Some("end".to_owned()), get(&mut tree, "before"));
    assert_eq!(None, get(&mut tree, "zoo"));
}

#[test]
fn delete_then_reinsert() {
    let mut tree = LogicalTree::<BinaryTree>::new(Vec::new()).unwrap();
    put(&mut tree, "a", "1");
    assert_eq!(Some("1".to_owned()), get(&mut tree, "a"));
    tree.del("a").unwrap();
    assert_eq!(None, get(&mut tree, "a"));
    put(&mut tree, "a", "2");
    assert_eq!(Some("2".to_owned()), get(&mut tree, "a"));
}

#[test]
fn put_again_replaces_the_value_and_keeps_the_size() {
    let mut tree = LogicalTree::<BinaryTree>::new(Vec::new()).unwrap();
    put(&mut tree, "k", "v1");
    let first = data_of(&file_of(&tree));
    assert!(first.ends_with("{\"key\":\"k\",\"value_addr\":512,\"left_addr\":null,\"right_addr\":null,\"size\":1}"));
    put(&mut tree, "k", "v2");
    assert_eq!(Some("v2".to_owned()), get(&mut tree, "k"));
    let second = data_of(&file_of(&tree));
    assert!(second.ends_with("\"v2\"{\"key\":\"k\",\"value_addr\":588,\"left_addr\":null,\"right_addr\":null,\"size\":1}"));
}

#[test]
fn each_key_keeps_the_value_last_written_for_it() {
    let mut tree = LogicalTree::<BinaryTree>::new(Vec::new()).unwrap();
    tree.begin().unwrap();
    put(&mut tree, "m", "1");
    put(&mut tree, "c", "2");
    put(&mut tree, "x", "3");
    put(&mut tree, "c", "4");
    put(&mut tree, "m", "5");
    put(&mut tree, "a", "6");
    assert_eq!(Some("5".to_owned()), get(&mut tree, "m"));
    assert_eq!(Some("4".to_owned()), get(&mut tree, "c"));
    assert_eq!(Some("3".to_owned()), get(&mut tree, "x"));
    assert_eq!(Some("6".to_owned()), get(&mut tree, "a"));
    tree.commit().unwrap();
    let mut again = LogicalTree::<BinaryTree>::new(file_of(&tree)).unwrap();
    assert_eq!(Some("5".to_owned()), get(&mut again, "m"));
    assert_eq!(Some("4".to_owned()), get(&mut again, "c"));
    assert_eq!(Some("3".to_owned()), get(&mut again, "x"));
    assert_eq!(Some("6".to_owned()), get(&mut again, "a"));
}

#[test]
fn written_bytes_are_the_records() {
    let mut tree = LogicalTree::<BinaryTree>::new(Vec::new()).unwrap();
    put(&mut tree, "k\"1", "v\\1\n");
    let file = file_of(&tree);
    assert_eq!(
        "\"v\\\\1\\n\"{\"key\":\"k\\\"1\",\"value_addr\":512,\"left_addr\":null,\"right_addr\":null,\"size\":1}",
        data_of(&file)
    );
    assert_eq!(1, file[0]);
    assert_eq!(&(512u64 + 8).to_le_bytes()[..], &file[1..9]);
    let mut again = LogicalTree::<BinaryTree>::new(file).unwrap();
    assert_eq!(Some("v\\1\n".to_owned()), get(&mut again, "k\"1"));
}

#[test]
fn sizes_count_the_keys_of_each_subtree() {
    let mut tree = LogicalTree::<BinaryTree>::new(Vec::new()).unwrap();
    tree.begin().unwrap();
    put(&mut tree, "b", "2");
    put(&mut tree, "a", "1");
    put(&mut tree, "c", "3");
    tree.commit().unwrap();
    assert_eq!(
        "\"2\"\"1\"{\"key\":\"a\",\"value_addr\":515,\"left_addr\":null,\"right_addr\":null,\"size\":1}\
         \"3\"{\"key\":\"c\",\"value_addr\":590,\"left_addr\":null,\"right_addr\":null,\"size\":1}\
         {\"key\":\"b\",\"value_addr\":512,\"left_addr\":518,\"right_addr\":593,\"size\":3}",
        data_of(&file_of(&tree))
    );
}

#[test]
fn delete_of_a_node_with_two_children_takes_the_least_key_of_the_right_subtree() {
    let mut tree = LogicalTree::<BinaryTree>::new(Vec::new()).unwrap();
    tree.begin().unwrap();
    for (key, value) in [("d", "4"), ("b", "2"), ("f", "6"), ("a", "1"), ("c", "3"), ("e", "5"), ("g", "7")] {
        put(&mut tree, key, value);
    }
    tree.commit().unwrap();
    let before = file_of(&tree);
    tree.del("d").unwrap();
    let after = file_of(&tree);
    // the nodes on the way are written anew behind the old ones
    assert_eq!(&before[SUPERBLOCK as usize..], &after[SUPERBLOCK as usize..before.len()]);
    let appended = String::from_utf8(after[before.len()..].to_vec()).unwrap();
    assert_eq!(
        "{\"key\":\"f\",\"value_addr\":738,\"left_addr\":null,\"right_addr\":819,\"size\":2}\
         {\"key\":\"e\",\"value_addr\":741,\"left_addr\":668,\"right_addr\":1031,\"size\":6}",
        appended
    );
    assert_eq!(None, get(&mut tree, "d"));
    for (key, value) in [("b", "2"), ("f", "6"), ("a", "1"), ("c", "3"), ("e", "5"), ("g", "7")] {
        assert_eq!(Some(value.to_owned()), get(&mut tree, key));
    }
    tree.del("a").unwrap();
    tree.del("b").unwrap();
    tree.del("g").unwrap();
    assert_eq!(None, get(&mut tree, "a"));
    assert_eq!(None, get(&mut tree, "b"));
    assert_eq!(None, get(&mut tree, "g"));
    assert_eq!(Some("3".to_owned()), get(&mut tree, "c"));
    assert_eq!(Some("5".to_owned()), get(&mut tree, "e"));
    assert_eq!(Some("6".to_owned()), get(&mut tree, "f"));
}

#[test]
fn deleting_the_last_key_commits_the_empty_tree() {
    let mut tree = LogicalTree::<BinaryTree>::new(Vec::new()).unwrap();
    put(&mut tree, "a", "1");
    tree.del("a").unwrap();
    let file = file_of(&tree);
    assert_eq!(0, file[0]);
    let mut again = LogicalTree::<BinaryTree>::new(file).unwrap();
    assert_eq!(None, get(&mut again, "a"));
}

#[test]
fn a_transaction_leaves_the_file_alone_until_it_commits() {
    let mut tree = LogicalTree::<BinaryTree>::new(Vec::new()).unwrap();
    put(&mut tree, "a", "1");
    let before = file_of(&tree);
    tree.begin().unwrap();
    assert!(tree.is_in_txn());
    put(&mut tree, "a", "2");
    put(&mut tree, "b", "3");
    tree.del("a").unwrap();
    assert_eq!(before, file_of(&tree));
    tree.commit().unwrap();
    assert!(!tree.is_in_txn());
    let after = file_of(&tree);
    assert!(after.len() > before.len());
    assert_eq!(&before[SUPERBLOCK as usize..], &after[SUPERBLOCK as usize..before.len()]);
}

#[test]
fn begin_and_commit_do_nothing_where_there_is_nothing_to_do() {
    let mut tree = LogicalTree::<BinaryTree>::new(Vec::new()).unwrap();
    let fresh = file_of(&tree);
    assert_eq!(SUPERBLOCK as usize, fresh.len());
    assert!(fresh.iter().all(|b| *b == 0));
    tree.commit().unwrap();
    assert_eq!(fresh, file_of(&tree));
    assert!(!tree.is_in_txn());
    tree.begin().unwrap();
    put(&mut tree, "a", "1");
    tree.begin().unwrap();
    assert_eq!(Some("1".to_owned()), get(&mut tree, "a"));
}

#[test]
fn a_handle_outside_a_transaction_reads_the_file_anew() {
    let mut writer = LogicalTree::<BinaryTree>::new(Vec::new()).unwrap();
    put(&mut writer, "a", "1");
    let mut reader = LogicalTree::<BinaryTree>::new(file_of(&writer)).unwrap();
    assert_eq!(Some("1".to_owned()), get(&mut reader, "a"));
    assert_eq!(Some("1".to_owned()), get(&mut reader, "a"));
    put(&mut writer, "a", "2");
    let mut reader = LogicalTree::<BinaryTree>::new(file_of(&writer)).unwrap();
    assert_eq!(Some("2".to_owned()), get(&mut reader, "a"));
}

#[test]
fn a_file_without_a_superblock_record_is_refused() {
    let mut file = vec![0u8; 600];
    file[0] = 7;
    assert_eq!(Some(DbError::Codec), LogicalTree::<BinaryTree>::new(file).err());
}

#[test]
fn a_root_outside_the_file_is_refused() {
    assert_eq!(Some(DbError::Codec), LogicalTree::<BinaryTree>::new(file_with("", 512)).err());
    assert_eq!(Some(DbError::Codec), LogicalTree::<BinaryTree>::new(file_with("\"v\"", 9000)).err());
    assert_eq!(Some(DbError::Codec), LogicalTree::<BinaryTree>::new(file_with("\"v\"", 100)).err());
}

#[test]
fn a_record_that_cannot_be_read_is_a_codec_error() {
    let mut tree = LogicalTree::<BinaryTree>::new(file_with("garbage", 512)).unwrap();
    assert_eq!(Err(DbError::Codec), tree.get("a"));
    assert_eq!(Err(DbError::Codec), tree.put("a".to_owned(), "1".to_owned()));
    let mut tree = LogicalTree::<BinaryTree>::new(file_with("garbage", 512)).unwrap();
    assert_eq!(Err(DbError::Codec), tree.del("a"));
}

#[test]
fn a_record_that_refers_forward_is_a_codec_error() {
    // the node at 515 names a left child behind itself
    let data = "\"v\"{\"key\":\"k\",\"value_addr\":512,\"left_addr\":600,\"right_addr\":null,\"size\":1}";
    let mut tree = LogicalTree::<BinaryTree>::new(file_with(data, 515)).unwrap();
    assert_eq!(Err(DbError::Codec), tree.get("k"));
    // a node without a value
    let data = "\"v\"{\"key\":\"k\",\"value_addr\":null,\"left_addr\":null,\"right_addr\":null,\"size\":1}";
    let mut tree = LogicalTree::<BinaryTree>::new(file_with(data, 515)).unwrap();
    assert_eq!(Err(DbError::Codec), tree.get("k"));
}

#[test]
fn a_value_that_cannot_be_read_fails_the_get_and_not_the_delete() {
    // the value address of the node points at the node itself
    let data = "\"v\"{\"key\":\"k\",\"value_addr\":513,\"left_addr\":null,\"right_addr\":null,\"size\":1}";
    let mut tree = LogicalTree::<BinaryTree>::new(file_with(data, 515)).unwrap();
    assert_eq!(Err(DbError::Codec), tree.get("k"));
    assert_eq!(Ok(None), tree.get("a"));
    assert_eq!(Ok(()), tree.del("k"));
    assert_eq!(Ok(None), tree.get("k"));
}

#[test]
fn a_size_that_cannot_grow_or_shrink_is_an_invariant_error() {
    let full = format!(
        "\"v\"{{\"key\":\"k\",\"value_addr\":512,\"left_addr\":null,\"right_addr\":null,\"size\":{}}}",
        usize::MAX
    );
    let mut tree = LogicalTree::<BinaryTree>::new(file_with(&full, 515)).unwrap();
    assert_eq!(Err(DbError::Invariant), tree.put("a".to_owned(), "1".to_owned()));
    let mut tree = LogicalTree::<BinaryTree>::new(file_with(&full, 515)).unwrap();
    // replacing the value of the key itself raises no size
    assert_eq!(Ok(()), tree.put("k".to_owned(), "1".to_owned()));
    let none = "\"v\"{\"key\":\"k\",\"value_addr\":512,\"left_addr\":null,\"right_addr\":null,\"size\":0}";
    let mut tree = LogicalTree::<BinaryTree>::new(file_with(none, 515)).unwrap();
    assert_eq!(Err(DbError::Invariant), tree.del("k"));
    assert_eq!(Ok(()), tree.del("a"));
}

#[test]
fn an_agent_without_payload_and_address_is_an_invariant_error() {
    let storage = FileStorage::new(Vec::new()).unwrap();
    let mut value = StringAgent::new(None, None);
    assert_eq!(Err(DbError::Invariant), value.load(&storage));
    assert_eq!(Some(DbError::Invariant), value.get(&storage).err());
    assert_eq!(Some(DbError::Invariant), value.get_mut(&storage).err());
    let mut node = TreeNodeAgent::new(None, None);
    assert_eq!(Err(DbError::Invariant), node.load(&storage));
    assert!(node.get(&storage).is_err());
    assert!(node.get_mut(&storage).is_err());
}

#[test]
fn agents_load_on_demand_and_store_once() {
    let mut storage = FileStorage::new(Vec::new()).unwrap();
    let mut value = StringAgent::new(Some("hello".to_owned()), None);
    assert_eq!(None, value.addr());
    value.store(&mut storage).unwrap();
    assert_eq!(Some(512), value.addr());
    assert_eq!(512 + 7, storage.len());
    // a second store writes nothing
    value.store(&mut storage).unwrap();
    assert_eq!(Some(512), value.addr());
    assert_eq!(512 + 7, storage.len());
    let mut lazy = StringAgent::new(None, Some(512));
    assert_eq!(None, lazy.inner);
    assert_eq!("hello", lazy.get(&storage).unwrap());
    assert_eq!(Some("hello".to_owned()), lazy.inner);
    lazy.get_mut(&storage).unwrap().push('!');
    assert_eq!(Some("hello!".to_owned()), lazy.inner);
    assert_eq!(Some(512), lazy.addr());
    let mut nowhere = StringAgent::new(None, Some(600));
    assert_eq!(Err(DbError::Codec), nowhere.load(&storage));
}

#[test]
fn a_node_agent_stores_its_value_and_children_before_itself() {
    let mut storage = FileStorage::new(Vec::new()).unwrap();
    let mut node = TreeNode::new("m".to_owned(), "1".to_owned());
    assert_eq!("m", node.key);
    assert_eq!(1, node.size);
    assert_eq!(Some("1".to_owned()), node.value_agent.inner);
    assert_eq!(None, node.value_agent.addr);
    assert!(node.left_agent.is_none());
    assert!(node.right_agent.is_none());
    node.left_agent = Some(Box::new(TreeNodeAgent::new(
        Some(TreeNode::new("a".to_owned(), "0".to_owned())),
        None,
    )));
    node.size = 2;
    let copy = node.clone();
    assert_eq!("m", copy.key);
    assert_eq!(2, copy.size);
    assert_eq!("a", copy.left_agent.as_ref().unwrap().inner.as_ref().unwrap().key);
    let mut agent = TreeNodeAgent::new(Some(node), None);
    agent.store(&mut storage).unwrap();
    assert_eq!(
        "\"1\"\"0\"{\"key\":\"a\",\"value_addr\":515,\"left_addr\":null,\"right_addr\":null,\"size\":1}\
         {\"key\":\"m\",\"value_addr\":512,\"left_addr\":518,\"right_addr\":null,\"size\":2}",
        data_of(storage.as_bytes())
    );
    assert_eq!(Some(590), agent.addr());
    let length = storage.len();
    agent.store(&mut storage).unwrap();
    assert_eq!(length, storage.len());

    let mut lazy = TreeNodeAgent::new(None, Some(590));
    assert!(lazy.inner.is_none());
    let loaded = lazy.get(&storage).unwrap();
    assert_eq!("m", loaded.key);
    assert_eq!(2, loaded.size);
    assert_eq!(Some(512), loaded.value_agent.addr);
    assert_eq!(None, loaded.value_agent.inner);
    let left = loaded.left_agent.as_ref().unwrap();
    assert_eq!(Some(518), left.addr);
    assert!(left.inner.is_none());
    assert!(loaded.right_agent.is_none());
    let record = TreeNodeHD::from(lazy.get_mut(&storage).unwrap());
    assert_eq!("m", record.key);
    assert_eq!(Some(512), record.value_addr);
    assert_eq!(Some(518), record.left_addr);
    assert_eq!(None, record.right_addr);
    assert_eq!(2, record.size);
}

#[test]
fn a_node_from_a_record_holds_addresses_only() {
    let node = TreeNode::from(TreeNodeHD {
        key: "k".to_owned(),
        value_addr: Some(700),
        left_addr: None,
        right_addr: Some(600),
        size: 9,
    });
    assert_eq!("k", node.key);
    assert_eq!(9, node.size);
    assert_eq!(None, node.value_agent.inner);
    assert_eq!(Some(700), node.value_agent.addr);
    assert!(node.left_agent.is_none());
    let right = node.right_agent.unwrap();
    assert!(right.inner.is_none());
    assert_eq!(Some(600), right.addr);
}

#[test]
fn the_tree_works_without_a_handle() {
    let mut storage = FileStorage::new(Vec::new()).unwrap();
    let mut tree = BinaryTree::new().unwrap();
    assert_eq!(Ok(None), tree.store(&mut storage));
    tree.insert("b".to_owned(), "2".to_owned(), &storage).unwrap();
    tree.insert("a".to_owned(), "1".to_owned(), &storage).unwrap();
    assert_eq!(Ok(Some("1".to_owned())), tree.find("a", &storage));
    assert_eq!(Ok(None), tree.find("c", &storage));
    let root = tree.store(&mut storage).unwrap();
    assert_eq!(Some(590), root);
    // nothing is fresh any more
    assert_eq!(Ok(root), tree.store(&mut storage));
    let mut view = BinaryTree::new().unwrap();
    view.change_view(590).unwrap();
    assert_eq!(Ok(Some("2".to_owned())), view.find("b", &storage));
    view.delete("b", &storage).unwrap();
    assert_eq!(Ok(None), view.find("b", &storage));
    assert_eq!(Ok(Some("1".to_owned())), view.find("a", &storage));
    // the one child took the place of the root, which was stored before
    assert_eq!(Ok(Some(518)), view.store(&mut storage));
    // changing the view drops what was not stored
    tree.insert("z".to_owned(), "26".to_owned(), &storage).unwrap();
    tree.change_view(590).unwrap();
    assert_eq!(Ok(None), tree.find("z", &storage));
}

#[test]
fn two_handles_take_turns_on_one_file() {
    let mut tree = LogicalTree::<BinaryTree>::new(Vec::new()).unwrap();
    tree.begin().unwrap();
    put(&mut tree, "a", "1");
    tree.commit().unwrap();
    // the second handle begins once the first has committed
    let mut other = LogicalTree::<BinaryTree>::new(file_of(&tree)).unwrap();
    other.begin().unwrap();
    assert_eq!(Some("1".to_owned()), get(&mut other, "a"));
    put(&mut other, "b", "2");
    other.commit().unwrap();
    assert_eq!(Some("2".to_owned()), get(&mut other, "b"));
    // the first handle goes on with the file as the second left it
    let mut tree = LogicalTree::<BinaryTree>::new(file_of(&other)).unwrap();
    put(&mut tree, "c", "3");
    assert_eq!(Some("2".to_owned()), get(&mut tree, "b"));
    assert_eq!(Some("3".to_owned()), get(&mut tree, "c"));
    assert_eq!(Some("1".to_owned()), get(&mut tree, "a"));
    assert_eq!(None, get(&mut tree, "z"));
}

#[test]
fn a_view_taken_at_begin_does_not_see_later_commits() {
    let mut writer = LogicalTree::<BinaryTree>::new(Vec::new()).unwrap();
    put(&mut writer, "a", "1");
    let mut reader = LogicalTree::<BinaryTree>::new(file_of(&writer)).unwrap();
    reader.begin().unwrap();
    put(&mut writer, "a", "2");
    put(&mut writer, "b", "3");
    // the reader works on the bytes that it took when it began
    assert_eq!(Some("1".to_owned()), get(&mut reader, "a"));
    assert_eq!(None, get(&mut reader, "b"));
}

#[test]
fn a_full_node_still_takes_a_new_value_for_a_key_below_it() {
    // the root counts as many keys as a size can hold; its left child is "a"
    let data = format!(
        "\"1\"{{\"key\":\"a\",\"value_addr\":512,\"left_addr\":null,\"right_addr\":null,\"size\":1}}\
         \"2\"{{\"key\":\"k\",\"value_addr\":587,\"left_addr\":515,\"right_addr\":null,\"size\":{}}}",
        usize::MAX
    );
    let mut tree = LogicalTree::<BinaryTree>::new(file_with(&data, 590)).unwrap();
    tree.begin().unwrap();
    assert_eq!(Some("1".to_owned()), get(&mut tree, "a"));
    // a key that is there gets its value, and no size changes
    assert_eq!(Ok(()), tree.put("a".to_owned(), "one".to_owned()));
    assert_eq!(Some("one".to_owned()), get(&mut tree, "a"));
    // a key that is not there cannot be counted
    assert_eq!(Err(DbError::Invariant), tree.put("b".to_owned(), "two".to_owned()));
    assert_eq!(Err(DbError::Invariant), tree.put("z".to_owned(), "26".to_owned()));
    assert_eq!(None, get(&mut tree, "b"));
    assert_eq!(Some("one".to_owned()), get(&mut tree, "a"));
    assert_eq!(Some("2".to_owned()), get(&mut tree, "k"));
}

#[test]
fn a_search_loads_the_nodes_on_its_way_and_no_others() {
    let mut storage = FileStorage::new(Vec::new()).unwrap();
    let mut root = TreeNode::new("m".to_owned(), "13".to_owned());
    root.left_agent = Some(Box::new(TreeNodeAgent::new(
        Some(TreeNode::new("c".to_owned(), "3".to_owned())),
        None,
    )));
    root.right_agent = Some(Box::new(TreeNodeAgent::new(
        Some(TreeNode::new("x".to_owned(), "24".to_owned())),
        None,
    )));
    root.size = 3;
    let mut agent = TreeNodeAgent::new(Some(root), None);
    agent.store(&mut storage).unwrap();
    let address = agent.addr().unwrap();

    let mut lazy = TreeNodeAgent::new(None, Some(address));
    let node = lazy.get(&storage).unwrap();
    // loading a node loads neither its value nor its children
    assert!(node.value_agent.inner.is_none());
    assert!(node.left_agent.as_ref().unwrap().inner.is_none());
    assert!(node.right_agent.as_ref().unwrap().inner.is_none());
    let left = node.left_agent.as_ref().unwrap().addr();
    let right = node.right_agent.as_ref().unwrap().addr();
    // a second load leaves the node as it is
    lazy.load(&storage).unwrap();
    let node = lazy.get(&storage).unwrap();
    assert_eq!(left, node.left_agent.as_ref().unwrap().addr());
    assert_eq!(right, node.right_agent.as_ref().unwrap().addr());
    assert!(node.left_agent.as_ref().unwrap().inner.is_none());
}

#[test]
fn a_second_store_writes_nothing_and_keeps_the_address() {
    let mut storage = FileStorage::new(Vec::new()).unwrap();
    let mut tree = BinaryTree::new().unwrap();
    assert_eq!(Ok(None), tree.store(&mut storage));
    assert_eq!(512, storage.len());
    tree.insert("b".to_owned(), "2".to_owned(), &storage).unwrap();
    let first = tree.store(&mut storage).unwrap();
    let file = storage.as_bytes().clone();
    assert_eq!(Ok(first), tree.store(&mut storage));
    assert_eq!(&file, storage.as_bytes());
    // deleting a key that is not there changes nothing that is stored
    tree.delete("zoo", &storage).unwrap();
    assert_eq!(Ok(first), tree.store(&mut storage));
    assert_eq!(&file, storage.as_bytes());
}

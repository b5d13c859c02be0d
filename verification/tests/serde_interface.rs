use dbdb::error::DbError;
use dbdb::agent::TreeNodeHD;
use dbdb::serde_interface::{Label, SerdeBincode, SerdeJson};

#[test]
fn text_is_written_as_a_json_string() {
    let mut writer = b"x".to_vec();
    SerdeJson::to_writer(&mut writer, &"a\"b\\c\nd\u{e9}".to_owned()).unwrap();
    assert_eq!("x\"a\\\"b\\\\c\\nd\u{e9}\"".as_bytes(), &writer[..]);
}

#[test]
fn text_is_read_up_to_its_closing_quote() {
    let (text, len) = SerdeJson::from_reader(b"\"a\\\"b\\\\\"\"next\"").unwrap();
    assert_eq!("a\"b\\", text);
    assert_eq!(8, len);
    let (text, len) = SerdeJson::from_reader(b"\"\\u00e9\\n\"{").unwrap();
    assert_eq!("\u{e9}\n", text);
    assert_eq!(10, len);
    let (text, len) = SerdeJson::from_reader(b"\"\"").unwrap();
    assert_eq!("", text);
    assert_eq!(2, len);
}

#[test]
fn text_that_is_no_json_string_is_refused() {
    assert_eq!(Err(DbError::Codec), SerdeJson::from_reader(b""));
    assert_eq!(Err(DbError::Codec), SerdeJson::from_reader(b"abc"));
    assert_eq!(Err(DbError::Codec), SerdeJson::from_reader(b"\"abc"));
    assert_eq!(Err(DbError::Codec), SerdeJson::from_reader(b"\"abc\\"));
    assert_eq!(Err(DbError::Codec), SerdeJson::from_reader(b"\"a\\qb\""));
    assert_eq!(Err(DbError::Codec), SerdeJson::from_reader(b" \"abc\""));
    assert_eq!(Err(DbError::Codec), SerdeJson::from_reader(b"\"\xff\""));
}

#[test]
fn a_record_is_accepted_only_if_it_reads_back() {
    let value = "v".to_owned();
    assert_eq!(Ok(b"\"v\"".to_vec()), SerdeJson::check_text(&value, b"\"v\"".to_vec()));
    assert_eq!(Ok(b"\"\\u0076\"".to_vec()), SerdeJson::check_text(&value, b"\"\\u0076\"".to_vec()));
    assert_eq!(Err(DbError::Codec), SerdeJson::check_text(&value, b"v".to_vec()));
    assert_eq!(Err(DbError::Codec), SerdeJson::check_text(&value, b"\"w\"".to_vec()));
    assert_eq!(Err(DbError::Codec), SerdeJson::check_text(&value, b"\"v\" ".to_vec()));
    assert_eq!(Err(DbError::Codec), SerdeJson::check_text(&value, b"\"v".to_vec()));
}

fn record(key: &str, value: Option<u64>, left: Option<u64>, right: Option<u64>, size: usize) -> TreeNodeHD {
    TreeNodeHD { key: key.to_owned(), value_addr: value, left_addr: left, right_addr: right, size }
}

#[test]
fn a_node_record_is_written_field_by_field() {
    let mut writer = Vec::new();
    SerdeJson::node_to_writer(&mut writer, &record("k", Some(512), None, Some(1000), 3)).unwrap();
    assert_eq!(
        "{\"key\":\"k\",\"value_addr\":512,\"left_addr\":null,\"right_addr\":1000,\"size\":3}",
        String::from_utf8(writer).unwrap()
    );
    let mut writer = b"x".to_vec();
    SerdeJson::node_to_writer(&mut writer, &record("a}\"", None, Some(0), Some(u64::MAX), 0)).unwrap();
    assert_eq!(
        "x{\"key\":\"a}\\\"\",\"value_addr\":null,\"left_addr\":0,\"right_addr\":18446744073709551615,\"size\":0}",
        String::from_utf8(writer).unwrap()
    );
}

#[test]
fn a_node_record_reads_back() {
    for node in [
        record("k", Some(512), None, Some(1000), 3),
        record("", None, None, None, 0),
        record("a,}\"\\\u{1F600}", Some(u64::MAX), Some(0), Some(10), usize::MAX),
    ] {
        let mut writer = Vec::new();
        SerdeJson::node_to_writer(&mut writer, &node).unwrap();
        let length = writer.len();
        writer.extend_from_slice(b"\"what follows\"");
        let (read, len) = SerdeJson::node_from_reader(&writer).unwrap();
        assert_eq!(length, len);
        assert_eq!(node.key, read.key);
        assert_eq!(node.value_addr, read.value_addr);
        assert_eq!(node.left_addr, read.left_addr);
        assert_eq!(node.right_addr, read.right_addr);
        assert_eq!(node.size, read.size);
    }
}

#[test]
fn a_node_record_in_another_shape_is_refused() {
    let refused = |bytes: &[u8]| {
        assert_eq!(Some(DbError::Codec), SerdeJson::node_from_reader(bytes).err());
    };
    refused(b"");
    refused(b"{}");
    refused(b"\"k\"");
    // the fields in another order
    refused(b"{\"value_addr\":512,\"key\":\"k\",\"left_addr\":null,\"right_addr\":null,\"size\":1}");
    // a field is missing
    refused(b"{\"key\":\"k\",\"value_addr\":512,\"left_addr\":null,\"size\":1}");
    // the record ends too early
    refused(b"{\"key\":\"k\",\"value_addr\":512,\"left_addr\":null,\"right_addr\":null,\"size\":1");
    // a size must be a number
    refused(b"{\"key\":\"k\",\"value_addr\":512,\"left_addr\":null,\"right_addr\":null,\"size\":null}");
    // a number must fit
    refused(b"{\"key\":\"k\",\"value_addr\":18446744073709551616,\"left_addr\":null,\"right_addr\":null,\"size\":1}");
    refused(b"{\"key\":\"k\",\"value_addr\":-1,\"left_addr\":null,\"right_addr\":null,\"size\":1}");
    refused(b"{\"key\":\"k\",\"value_addr\":,\"left_addr\":null,\"right_addr\":null,\"size\":1}");
    // a number does not begin with a zero that more digits follow
    refused(b"{\"key\":\"k\",\"value_addr\":0512,\"left_addr\":null,\"right_addr\":null,\"size\":1}");
    refused(b"{\"key\":\"k\",\"value_addr\":512,\"left_addr\":null,\"right_addr\":null,\"size\":01}");
    refused(b"{\"key\":\"k\",\"value_addr\":512,\"left_addr\":00,\"right_addr\":null,\"size\":1}");
    // white space is no part of a record
    refused(b"{\"key\": \"k\",\"value_addr\":512,\"left_addr\":null,\"right_addr\":null,\"size\":1}");
    // the key must be a string that can be read
    refused(b"{\"key\":\"\\q\",\"value_addr\":512,\"left_addr\":null,\"right_addr\":null,\"size\":1}");
}

#[test]
fn labels_are_the_names_of_the_fields() {
    assert_eq!(b"{\"key\":".to_vec(), Label::Key.to_vec());
    assert_eq!(b",\"value_addr\":".to_vec(), Label::ValueAddr.to_vec());
    assert_eq!(b",\"left_addr\":".to_vec(), Label::LeftAddr.to_vec());
    assert_eq!(b",\"right_addr\":".to_vec(), Label::RightAddr.to_vec());
    assert_eq!(b",\"size\":".to_vec(), Label::Size.to_vec());
    assert_eq!(b"}".to_vec(), Label::Close.to_vec());
    assert_eq!(b"null".to_vec(), Label::Null.to_vec());
}

#[test]
fn the_superblock_record_is_a_tag_and_eight_bytes() {
    let mut writer = Vec::new();
    SerdeBincode::to_writer(&mut writer, &None).unwrap();
    assert_eq!(vec![0u8], writer);
    SerdeBincode::to_writer(&mut writer, &Some(0x0102030405060708)).unwrap();
    assert_eq!(vec![0u8, 1, 8, 7, 6, 5, 4, 3, 2, 1], writer);
}

#[test]
fn the_superblock_record_reads_back() {
    assert_eq!(Ok(None), SerdeBincode::from_reader(&[0]));
    assert_eq!(Ok(None), SerdeBincode::from_reader(&[0, 9, 9]));
    assert_eq!(Ok(Some(512)), SerdeBincode::from_reader(&[1, 0, 2, 0, 0, 0, 0, 0, 0]));
    assert_eq!(Ok(Some(u64::MAX)), SerdeBincode::from_reader(&[1, 255, 255, 255, 255, 255, 255, 255, 255, 7]));
    assert_eq!(Ok(Some(0)), SerdeBincode::from_reader(&[1, 0, 0, 0, 0, 0, 0, 0, 0]));
}

#[test]
fn a_superblock_record_with_another_tag_or_too_few_bytes_is_refused() {
    assert_eq!(Err(DbError::Codec), SerdeBincode::from_reader(&[]));
    assert_eq!(Err(DbError::Codec), SerdeBincode::from_reader(&[2]));
    assert_eq!(Err(DbError::Codec), SerdeBincode::from_reader(&[255, 0, 0, 0, 0, 0, 0, 0, 0]));
    assert_eq!(Err(DbError::Codec), SerdeBincode::from_reader(&[1]));
    assert_eq!(Err(DbError::Codec), SerdeBincode::from_reader(&[1, 0, 0, 0, 0, 0, 0, 0]));
}

#[test]
fn a_single_zero_is_a_number() {
    let (read, _) = SerdeJson::node_from_reader(
        b"{\"key\":\"k\",\"value_addr\":0,\"left_addr\":0,\"right_addr\":10,\"size\":0}",
    )
    .unwrap();
    assert_eq!(Some(0), read.value_addr);
    assert_eq!(Some(0), read.left_addr);
    assert_eq!(Some(10), read.right_addr);
    assert_eq!(0, read.size);
}

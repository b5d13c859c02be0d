//! The codecs: how texts, node records and the superblock record become
//! bytes.
//!
//! Text goes through `serde_json`, the superblock record through `bincode`.
//! The library delimits every record itself, so that what a record decodes
//! to never depends on the bytes that follow it.

use vstd::prelude::*;
use vstd::bytes::*;
use vstd::slice::*;
use crate::error::DbError;
use crate::agent::{NodeRecord, TreeNodeHD};

verus! {

/// The JSON codec, used for the records of the data region.
pub struct SerdeJson;

/// The bincode codec, used for the superblock.
pub struct SerdeBincode;

/// The error of `serde_json`, which the library only ever maps to
/// `DbError::Codec`.
#[verifier::external_type_specification]
#[verifier::external_body]
pub struct ExJsonError(serde_json::Error);

/// The text that `serde_json::from_slice::<String>` decodes from `bytes`,
/// or `None` where it reports an error.
pub uninterp spec fn json_text_value(bytes: Seq<u8>) -> Option<Seq<char>>;

/// The bytes that `serde_json::to_writer` writes for the string `text`,
/// or `None` where it reports an error.
pub uninterp spec fn json_text_bytes(text: Seq<char>) -> Option<Seq<u8>>;

/// Calls `serde_json::from_slice` for a `String`. Its result is a function
/// of the bytes alone, which `json_text_value` names.
#[verifier::external_body]
fn json_from_slice(bytes: &[u8]) -> (r: Result<String, serde_json::Error>)
    ensures
        r is Ok <==> json_text_value(bytes@) is Some,
        r matches Ok(s) ==> json_text_value(bytes@) == Some(s@),
{
    serde_json::from_slice::<String>(bytes)
}

/// Calls `serde_json::to_writer` on a fresh buffer for a `String`. Its
/// result is a function of the string alone, which `json_text_bytes` names.
#[verifier::external_body]
fn json_to_writer(value: &String) -> (r: Result<Vec<u8>, serde_json::Error>)
    ensures
        r is Ok <==> json_text_bytes(value@) is Some,
        r matches Ok(b) ==> json_text_bytes(value@) == Some(b@),
{
    let mut buf: Vec<u8> = Vec::new();
    serde_json::to_writer(&mut buf, value)?;
    Ok(buf)
}

/// The byte `"`.
pub const QUOTE: u8 = 0x22;

/// The byte `\`.
pub const BACKSLASH: u8 = 0x5c;

/// The index just past the quote that closes a JSON string whose body
/// starts at `i`, or `None` where `s` ends before that quote.
pub open spec fn text_end(s: Seq<u8>, i: int) -> Option<int>
    decreases s.len() - i,
{
    if i < 0 || i >= s.len() {
        None
    } else if s[i] == QUOTE {
        Some(i + 1)
    } else if s[i] == BACKSLASH {
        if i + 1 < s.len() {
            text_end(s, i + 2)
        } else {
            None
        }
    } else {
        text_end(s, i + 1)
    }
}

/// The text record that starts at index `i` of `s`: its text and the index
/// just past it.
pub open spec fn text_at(s: Seq<u8>, i: int) -> Option<(Seq<char>, int)> {
    if 0 <= i < s.len() && s[i] == QUOTE {
        match text_end(s, i + 1) {
            Some(e) => match json_text_value(s.subrange(i, e)) {
                Some(t) => Some((t, e)),
                None => None,
            },
            None => None,
        }
    } else {
        None
    }
}

/// Whether `text` can be written as a record and read back.
pub open spec fn text_encodable(text: Seq<char>) -> bool {
    match json_text_bytes(text) {
        Some(b) => text_at(b, 0) == Some((text, b.len() as int)),
        None => false,
    }
}

/// A closing quote lies inside the sequence, after the body's start.
pub proof fn lemma_text_end_bounds(s: Seq<u8>, i: int)
    requires
        0 <= i,
    ensures
        text_end(s, i) matches Some(e) ==> i < e <= s.len(),
    decreases s.len() - i,
{
    if i < s.len() && s[i] != QUOTE {
        if s[i] == BACKSLASH {
            if i + 1 < s.len() {
                lemma_text_end_bounds(s, i + 2);
            }
        } else {
            lemma_text_end_bounds(s, i + 1);
        }
    }
}

/// Where a string ends does not depend on what follows it, nor on what
/// stands before it.
pub proof fn lemma_text_end_within(pre: Seq<u8>, s: Seq<u8>, post: Seq<u8>, i: int)
    requires
        0 <= i,
        text_end(s, i) is Some,
    ensures
        text_end(pre + s + post, pre.len() + i) == Some(pre.len() + text_end(s, i)->0),
    decreases s.len() - i,
{
    let w = pre + s + post;
    assert(w[pre.len() + i] == s[i]);
    if s[i] != QUOTE {
        if s[i] == BACKSLASH {
            assert(w[pre.len() + i + 1] == s[i + 1]);
            lemma_text_end_within(pre, s, post, i + 2);
        } else {
            lemma_text_end_within(pre, s, post, i + 1);
        }
    }
}

/// A text record does not depend on what follows it, nor on what stands
/// before it.
pub proof fn lemma_text_at_within(pre: Seq<u8>, s: Seq<u8>, post: Seq<u8>, i: int)
    requires
        text_at(s, i) is Some,
    ensures
        text_at(pre + s + post, pre.len() + i) == (match text_at(s, i) {
            Some((t, e)) => Some((t, pre.len() + e)),
            None => None,
        }),
{
    let w = pre + s + post;
    let e = text_end(s, i + 1)->0;
    lemma_text_end_bounds(s, i + 1);
    lemma_text_end_within(pre, s, post, i + 1);
    assert(w[pre.len() + i] == s[i]);
    assert(w.subrange(pre.len() + i, pre.len() + e) =~= s.subrange(i, e));
}

/// Whether `label` stands in `s` at index `i`.
pub open spec fn label_at(s: Seq<u8>, i: int, label: Seq<u8>) -> bool {
    0 <= i && i + label.len() <= s.len() && s.subrange(i, i + label.len()) == label
}

/// Whether `b` is one of the bytes `0` to `9`.
pub open spec fn is_digit(b: u8) -> bool {
    0x30 <= b <= 0x39
}

/// The first index from `i` on at which `s` holds no digit.
pub open spec fn digits_end(s: Seq<u8>, i: int) -> int
    decreases s.len() - i,
{
    if 0 <= i < s.len() && is_digit(s[i]) {
        digits_end(s, i + 1)
    } else {
        i
    }
}

/// The number that the decimal digits `d` write.
pub open spec fn digits_value(d: Seq<u8>) -> nat
    decreases d.len(),
{
    if d.len() == 0 {
        0
    } else {
        10 * digits_value(d.drop_last()) + (d.last() - 0x30) as nat
    }
}

/// The decimal digits of `n`, without leading zeros.
pub open spec fn decimal(n: nat) -> Seq<u8>
    decreases n,
{
    if n < 10 {
        seq![(0x30 + n) as u8]
    } else {
        decimal(n / 10).push((0x30 + n % 10) as u8)
    }
}

/// The fixed byte strings of a node record.
#[derive(Clone, Copy, Debug, PartialEq, Eq, Structural)]
pub enum Label {
    /// `{"key":`: the opening brace and the name of the key field.
    Key,
    /// `,"value_addr":`: the name of the value address field.
    ValueAddr,
    /// `,"left_addr":`: the name of the left address field.
    LeftAddr,
    /// `,"right_addr":`: the name of the right address field.
    RightAddr,
    /// `,"size":`: the name of the size field.
    Size,
    /// `}`: the closing brace.
    Close,
    /// `null`: the word for an absent address.
    Null,
}

impl Label {
    /// The bytes of the label.
    #[verifier::opaque]
    pub open spec fn bytes(self) -> Seq<u8> {
        match self {
            Label::Key => seq![0x7bu8, 0x22u8, 0x6bu8, 0x65u8, 0x79u8, 0x22u8, 0x3au8],
            Label::ValueAddr => seq![
                0x2cu8, 0x22u8, 0x76u8, 0x61u8, 0x6cu8, 0x75u8, 0x65u8, 0x5fu8, 0x61u8, 0x64u8,
                0x64u8, 0x72u8, 0x22u8, 0x3au8,
            ],
            Label::LeftAddr => seq![
                0x2cu8, 0x22u8, 0x6cu8, 0x65u8, 0x66u8, 0x74u8, 0x5fu8, 0x61u8, 0x64u8, 0x64u8,
                0x72u8, 0x22u8, 0x3au8,
            ],
            Label::RightAddr => seq![
                0x2cu8, 0x22u8, 0x72u8, 0x69u8, 0x67u8, 0x68u8, 0x74u8, 0x5fu8, 0x61u8, 0x64u8,
                0x64u8, 0x72u8, 0x22u8, 0x3au8,
            ],
            Label::Size => seq![0x2cu8, 0x22u8, 0x73u8, 0x69u8, 0x7au8, 0x65u8, 0x22u8, 0x3au8],
            Label::Close => seq![0x7du8],
            Label::Null => seq![0x6eu8, 0x75u8, 0x6cu8, 0x6cu8],
        }
    }

    /// The number of bytes of the label.
    pub open spec fn len(self) -> int {
        match self {
            Label::Key => 7,
            Label::ValueAddr => 14,
            Label::LeftAddr => 13,
            Label::RightAddr => 14,
            Label::Size => 8,
            Label::Close => 1,
            Label::Null => 4,
        }
    }

    /// How long a label is, and that it starts with a byte that is no
    /// digit.
    pub proof fn lemma_shape(self)
        ensures
            self.bytes().len() == self.len(),
            !is_digit(self.bytes()[0]),
    {
        reveal(Label::bytes);
    }

    /// The bytes of the label.
    pub fn to_vec(&self) -> (v: Vec<u8>)
        ensures
            v@ == self.bytes(),
            v@.len() == self.len(),
    {
        proof {
            reveal(Label::bytes);
        }
        match self {
            Label::Key => vec![0x7bu8, 0x22u8, 0x6bu8, 0x65u8, 0x79u8, 0x22u8, 0x3au8],
            Label::ValueAddr => vec![
                0x2cu8, 0x22u8, 0x76u8, 0x61u8, 0x6cu8, 0x75u8, 0x65u8, 0x5fu8, 0x61u8, 0x64u8,
                0x64u8, 0x72u8, 0x22u8, 0x3au8,
            ],
            Label::LeftAddr => vec![
                0x2cu8, 0x22u8, 0x6cu8, 0x65u8, 0x66u8, 0x74u8, 0x5fu8, 0x61u8, 0x64u8, 0x64u8,
                0x72u8, 0x22u8, 0x3au8,
            ],
            Label::RightAddr => vec![
                0x2cu8, 0x22u8, 0x72u8, 0x69u8, 0x67u8, 0x68u8, 0x74u8, 0x5fu8, 0x61u8, 0x64u8,
                0x64u8, 0x72u8, 0x22u8, 0x3au8,
            ],
            Label::Size => vec![0x2cu8, 0x22u8, 0x73u8, 0x69u8, 0x7au8, 0x65u8, 0x22u8, 0x3au8],
            Label::Close => vec![0x7du8],
            Label::Null => vec![0x6eu8, 0x75u8, 0x6cu8, 0x6cu8],
        }
    }
}

/// The bytes that write an optional address: its decimal digits, or `null`.
pub open spec fn address_bytes(address: Option<u64>) -> Seq<u8> {
    match address {
        Some(a) => decimal(a as nat),
        None => Label::Null.bytes(),
    }
}

/// The byte `0`.
pub const ZERO: u8 = 0x30;

/// The optional address written at index `i` of `s`, and the index just
/// past it. A number counts only where a further byte follows it, and, as
/// in JSON, only where it does not begin with a zero that more digits
/// follow.
pub open spec fn address_at(s: Seq<u8>, i: int) -> Option<(Option<u64>, int)> {
    if label_at(s, i, Label::Null.bytes()) {
        Some((None, i + 4))
    } else {
        let e = digits_end(s, i);
        if 0 <= i < e < s.len() && (s[i] == ZERO ==> e == i + 1) && digits_value(
            s.subrange(i, e),
        ) <= u64::MAX {
            Some((Some(digits_value(s.subrange(i, e)) as u64), e))
        } else {
            None
        }
    }
}

/// The digits end inside the sequence, and only digits stand before
/// their end.
pub proof fn lemma_digits_end_bounds(s: Seq<u8>, i: int)
    requires
        0 <= i <= s.len(),
    ensures
        i <= digits_end(s, i) <= s.len(),
        forall|j: int| i <= j < digits_end(s, i) ==> is_digit(#[trigger] s[j]),
        digits_end(s, i) < s.len() ==> !is_digit(s[digits_end(s, i)]),
    decreases s.len() - i,
{
    if i < s.len() && is_digit(s[i]) {
        lemma_digits_end_bounds(s, i + 1);
    }
}

/// A run of digits that a byte other than a digit ends is found wherever
/// it stands.
pub proof fn lemma_digits_end_is(s: Seq<u8>, i: int, e: int)
    requires
        0 <= i <= e <= s.len(),
        forall|j: int| i <= j < e ==> is_digit(#[trigger] s[j]),
        e < s.len() ==> !is_digit(s[e]),
    ensures
        digits_end(s, i) == e,
    decreases e - i,
{
    if i < e {
        lemma_digits_end_is(s, i + 1, e);
    }
}

/// More digits never write a smaller number.
pub proof fn lemma_digits_value_grows(d: Seq<u8>, k: int)
    requires
        0 <= k <= d.len(),
        forall|j: int| 0 <= j < d.len() ==> is_digit(#[trigger] d[j]),
    ensures
        digits_value(d.subrange(0, k)) <= digits_value(d),
    decreases d.len() - k,
{
    if k == d.len() {
        assert(d.subrange(0, k) =~= d);
    } else {
        let longer = d.subrange(0, k + 1);
        assert(longer.drop_last() =~= d.subrange(0, k));
        lemma_digits_value_grows(d, k + 1);
    }
}

/// The decimal digits of a number are digits, at least one, and write
/// that number.
pub proof fn lemma_decimal(n: nat)
    ensures
        decimal(n).len() >= 1,
        forall|j: int| 0 <= j < decimal(n).len() ==> is_digit(#[trigger] decimal(n)[j]),
        digits_value(decimal(n)) == n,
        decimal(n)[0] == ZERO ==> decimal(n).len() == 1,
        n > 0 ==> decimal(n)[0] != ZERO,
    decreases n,
{
    if n < 10 {
        let d = decimal(n);
        assert(d.drop_last() =~= Seq::<u8>::empty());
        assert(digits_value(d.drop_last()) == 0);
    } else {
        lemma_decimal(n / 10);
        let d = decimal(n);
        assert(d.drop_last() =~= decimal(n / 10));
        assert(d[0] == decimal(n / 10)[0]);
    }
}

/// The index at which a reading ended (0 where nothing was read).
pub open spec fn end_of<T>(reading: Option<(T, int)>) -> int {
    match reading {
        Some((_, e)) => e,
        None => 0,
    }
}

/// The optional address that follows `label` at index `i` of `s`, and the
/// index just past it.
pub open spec fn field_at(s: Seq<u8>, i: int, label: Label) -> Option<(Option<u64>, int)> {
    if label_at(s, i, label.bytes()) {
        address_at(s, i + label.len())
    } else {
        None
    }
}

/// The node record that starts at index `i` of `s`, and the index just
/// past it.
pub open spec fn node_at(s: Seq<u8>, i: int) -> Option<(NodeRecord, int)> {
    if !label_at(s, i, Label::Key.bytes()) {
        None
    } else {
        match text_at(s, i + 7) {
            None => None,
            Some((key, p1)) => match field_at(s, p1, Label::ValueAddr) {
                None => None,
                Some((value_addr, p2)) => match field_at(s, p2, Label::LeftAddr) {
                    None => None,
                    Some((left_addr, p3)) => match field_at(s, p3, Label::RightAddr) {
                        None => None,
                        Some((right_addr, p4)) => match field_at(s, p4, Label::Size) {
                            Some((Some(size), p5)) => if size <= usize::MAX && label_at(
                                s,
                                p5,
                                Label::Close.bytes(),
                            ) {
                                Some(
                                    (
                                        NodeRecord {
                                            key,
                                            value_addr,
                                            left_addr,
                                            right_addr,
                                            size: size as usize,
                                        },
                                        p5 + 1,
                                    ),
                                )
                            } else {
                                None
                            },
                            _ => None,
                        },
                    },
                },
            },
        }
    }
}

/// A label that stands in `s` stands in every sequence that holds `s`,
/// shifted by what stands before `s`.
pub proof fn lemma_label_at_within(pre: Seq<u8>, s: Seq<u8>, post: Seq<u8>, i: int, label: Seq<u8>)
    requires
        label_at(s, i, label),
    ensures
        label_at(pre + s + post, pre.len() + i, label),
{
    let w = pre + s + post;
    assert(w.subrange(pre.len() + i, pre.len() + i + label.len()) =~= s.subrange(
        i,
        i + label.len(),
    ));
}

/// An address that is written in `s` is read the same in every sequence
/// that holds `s`.
pub proof fn lemma_address_at_within(pre: Seq<u8>, s: Seq<u8>, post: Seq<u8>, i: int)
    requires
        address_at(s, i) is Some,
    ensures
        address_at(pre + s + post, pre.len() + i) == (match address_at(s, i) {
            Some((a, e)) => Some((a, pre.len() + e)),
            None => None,
        }),
{
    let w = pre + s + post;
    let n = pre.len() as int;
    if label_at(s, i, Label::Null.bytes()) {
        lemma_label_at_within(pre, s, post, i, Label::Null.bytes());
    } else {
        let e = digits_end(s, i);
        lemma_digits_end_bounds(s, i);
        assert forall|j: int| n + i <= j < n + e implies is_digit(#[trigger] w[j]) by {
            assert(w[j] == s[j - n]);
        }
        assert(w[n + e] == s[e]);
        lemma_digits_end_is(w, n + i, n + e);
        assert(w.subrange(n + i, n + e) =~= s.subrange(i, e));
        assert(w[n + i] == s[i]);
        assert(is_digit(s[i]));
        Label::Null.lemma_shape();
        if label_at(w, n + i, Label::Null.bytes()) {
            assert(w.subrange(n + i, n + i + 4)[0] == w[n + i]);
        }
    }
}

/// A field that is written in `s` is read the same in every sequence that
/// holds `s`.
pub proof fn lemma_field_at_within(pre: Seq<u8>, s: Seq<u8>, post: Seq<u8>, i: int, label: Label)
    requires
        field_at(s, i, label) is Some,
    ensures
        field_at(pre + s + post, pre.len() + i, label) == (match field_at(s, i, label) {
            Some((a, e)) => Some((a, pre.len() + e)),
            None => None,
        }),
{
    label.lemma_shape();
    lemma_label_at_within(pre, s, post, i, label.bytes());
    lemma_address_at_within(pre, s, post, i + label.len());
}

/// A node record that is written in `s` is read the same in every sequence
/// that holds `s`: neither what stands before it nor what follows it
/// changes the record.
pub proof fn lemma_node_at_within(pre: Seq<u8>, s: Seq<u8>, post: Seq<u8>, i: int)
    requires
        node_at(s, i) is Some,
    ensures
        node_at(pre + s + post, pre.len() + i) == (match node_at(s, i) {
            Some((record, e)) => Some((record, pre.len() + e)),
            None => None,
        }),
{
    let n = pre.len() as int;
    lemma_label_at_within(pre, s, post, i, Label::Key.bytes());
    lemma_text_at_within(pre, s, post, i + 7);
    let p1 = end_of(text_at(s, i + 7));
    lemma_field_at_within(pre, s, post, p1, Label::ValueAddr);
    let p2 = end_of(field_at(s, p1, Label::ValueAddr));
    lemma_field_at_within(pre, s, post, p2, Label::LeftAddr);
    let p3 = end_of(field_at(s, p2, Label::LeftAddr));
    lemma_field_at_within(pre, s, post, p3, Label::RightAddr);
    let p4 = end_of(field_at(s, p3, Label::RightAddr));
    lemma_field_at_within(pre, s, post, p4, Label::Size);
    let p5 = end_of(field_at(s, p4, Label::Size));
    lemma_label_at_within(pre, s, post, p5, Label::Close.bytes());
}

/// The bytes of a node record whose key is written as `key_bytes`.
pub open spec fn node_bytes_with(key_bytes: Seq<u8>, record: NodeRecord) -> Seq<u8> {
    Label::Key.bytes() + key_bytes + Label::ValueAddr.bytes() + address_bytes(record.value_addr)
        + Label::LeftAddr.bytes() + address_bytes(record.left_addr) + Label::RightAddr.bytes()
        + address_bytes(record.right_addr) + Label::Size.bytes() + address_bytes(
        Some(record.size as u64),
    ) + Label::Close.bytes()
}

/// The bytes of a node record, or `None` where its key cannot be written.
pub open spec fn node_bytes(record: NodeRecord) -> Option<Seq<u8>> {
    match json_text_bytes(record.key) {
        Some(key_bytes) => Some(node_bytes_with(key_bytes, record)),
        None => None,
    }
}

/// An address that is followed by a byte other than a digit is read back
/// as it was written.
pub proof fn lemma_address_written(pre: Seq<u8>, address: Option<u64>, post: Seq<u8>)
    requires
        post.len() > 0,
        !is_digit(post[0]),
    ensures
        address_at(pre + (address_bytes(address) + post), pre.len() as int) == Some(
            (address, (pre.len() + address_bytes(address).len()) as int),
        ),
{
    let token = address_bytes(address);
    let w = pre + (token + post);
    let n = pre.len() as int;
    Label::Null.lemma_shape();
    match address {
        None => {
            assert(w.subrange(n, n + 4) =~= Label::Null.bytes());
        },
        Some(a) => {
            lemma_decimal(a as nat);
            let e = n + token.len();
            assert forall|j: int| n <= j < e implies is_digit(#[trigger] w[j]) by {
                assert(w[j] == token[j - n]);
            }
            assert(w[e] == post[0]);
            lemma_digits_end_is(w, n, e);
            assert(w.subrange(n, e) =~= token);
            assert(is_digit(w[n]));
            if label_at(w, n, Label::Null.bytes()) {
                assert(w.subrange(n, n + 4)[0] == w[n]);
            }
        },
    }
}

/// A field that is followed by a byte other than a digit is read back as
/// it was written.
pub proof fn lemma_field_written(pre: Seq<u8>, label: Label, address: Option<u64>, post: Seq<u8>)
    requires
        post.len() > 0,
        !is_digit(post[0]),
    ensures
        field_at(pre + (label.bytes() + address_bytes(address) + post), pre.len() as int, label)
            == Some((address, pre.len() + label.len() + address_bytes(address).len())),
{
    let w = pre + (label.bytes() + address_bytes(address) + post);
    let n = pre.len() as int;
    label.lemma_shape();
    assert(w.subrange(n, n + label.len()) =~= label.bytes());
    lemma_address_written(pre + label.bytes(), address, post);
    assert(w =~= pre + label.bytes() + (address_bytes(address) + post));
}

/// Round trip of node records: a record whose key can be written and read
/// back is itself read back from the bytes that write it.
pub proof fn lemma_node_round_trip(record: NodeRecord)
    requires
        text_encodable(record.key),
    ensures
        node_bytes(record) matches Some(w) && node_at(w, 0) == Some((record, w.len() as int)),
{
    let k = json_text_bytes(record.key)->0;
    let w = node_bytes_with(k, record);
    let l0 = Label::Key.bytes();
    let l1 = Label::ValueAddr.bytes();
    let l2 = Label::LeftAddr.bytes();
    let l3 = Label::RightAddr.bytes();
    let l4 = Label::Size.bytes();
    let l5 = Label::Close.bytes();
    let a1 = address_bytes(record.value_addr);
    let a2 = address_bytes(record.left_addr);
    let a3 = address_bytes(record.right_addr);
    let a4 = address_bytes(Some(record.size as u64));
    let t4 = l4 + a4 + l5;
    let t3 = l3 + a3 + t4;
    let t2 = l2 + a2 + t3;
    let t1 = l1 + a1 + t2;
    Label::Key.lemma_shape();
    Label::ValueAddr.lemma_shape();
    Label::LeftAddr.lemma_shape();
    Label::RightAddr.lemma_shape();
    Label::Size.lemma_shape();
    Label::Close.lemma_shape();
    let pre1 = l0 + k;
    let pre2 = pre1 + l1 + a1;
    let pre3 = pre2 + l2 + a2;
    let pre4 = pre3 + l3 + a3;
    assert(w == pre4 + l4 + a4 + l5);
    assert(pre4 + l4 + a4 + l5 =~= pre4 + t4);
    assert(pre3 + l3 + a3 + t4 =~= pre3 + t3);
    assert(pre2 + l2 + a2 + t3 =~= pre2 + t2);
    assert(pre1 + l1 + a1 + t2 =~= pre1 + t1);
    assert(pre1 + t1 =~= l0 + k + t1);
    assert(label_at(w, 0, l0)) by {
        assert(w.subrange(0, 7) =~= l0);
    }
    let p1: int = 7 + k.len() as int;
    assert(text_at(w, 7) == Some((record.key, p1))) by {
        lemma_text_at_within(l0, k, t1, 0);
    }
    let p2: int = p1 + 14 + a1.len();
    assert(field_at(w, p1, Label::ValueAddr) == Some((record.value_addr, p2))) by {
        assert(t2[0] == l2[0]);
        lemma_field_written(pre1, Label::ValueAddr, record.value_addr, t2);
    }
    let p3: int = p2 + 13 + a2.len();
    assert(field_at(w, p2, Label::LeftAddr) == Some((record.left_addr, p3))) by {
        assert(t3[0] == l3[0]);
        lemma_field_written(pre2, Label::LeftAddr, record.left_addr, t3);
    }
    let p4: int = p3 + 14 + a3.len();
    assert(field_at(w, p3, Label::RightAddr) == Some((record.right_addr, p4))) by {
        assert(t4[0] == l4[0]);
        lemma_field_written(pre3, Label::RightAddr, record.right_addr, t4);
    }
    let p5: int = p4 + 8 + a4.len();
    assert(field_at(w, p4, Label::Size) == Some((Some(record.size as u64), p5))) by {
        lemma_field_written(pre4, Label::Size, Some(record.size as u64), l5);
    }
    assert(label_at(w, p5, l5) && w.len() == p5 + 1) by {
        assert(w.subrange(p5, p5 + 1) =~= l5);
    }
}

impl SerdeJson {
    /// Finds the end of the string whose body starts at `start`.
    fn scan_text(reader: &[u8], start: usize) -> (r: Option<usize>)
        ensures
            match text_end(reader@, start as int) {
                Some(e) => r == Some(e as usize) && start < e <= reader@.len(),
                None => r is None,
            },
    {
        let mut i: usize = start;
        loop
            invariant
                start <= i,
                text_end(reader@, start as int) == text_end(reader@, i as int),
            decreases reader@.len() - i,
        {
            if i >= reader.len() {
                return None;
            }
            let b: u8 = reader[i];
            if b == QUOTE {
                return Some(i + 1);
            }
            if b == BACKSLASH {
                if i + 1 >= reader.len() {
                    return None;
                }
                i = i + 2;
            } else {
                i = i + 1;
            }
        }
    }

    /// Reads the text record at index `pos` of `reader`.
    fn read_text(reader: &[u8], pos: usize) -> (r: Option<(String, usize)>)
        ensures
            match text_at(reader@, pos as int) {
                Some((t, e)) => r matches Some((s, n)) && s@ == t && n == e,
                None => r is None,
            },
    {
        if pos >= reader.len() || reader[pos] != QUOTE {
            return None;
        }
        match Self::scan_text(reader, pos + 1) {
            None => None,
            Some(end) => {
                let token = slice_subrange(reader, pos, end);
                match json_from_slice(token) {
                    Ok(s) => Some((s, end)),
                    Err(_) => None,
                }
            },
        }
    }

    /// Reads the text record at the start of `reader` and says how many
    /// bytes it takes. What follows the record is not looked at.
    pub fn from_reader(reader: &[u8]) -> (r: Result<(String, usize), DbError>)
        ensures
            match text_at(reader@, 0) {
                Some((t, e)) => r matches Ok((s, n)) && s@ == t && n == e,
                None => r == Err::<(String, usize), DbError>(DbError::Codec),
            },
    {
        match Self::read_text(reader, 0) {
            Some(found) => Ok(found),
            None => Err(DbError::Codec),
        }
    }

    /// Whether `label` stands at index `pos` of `reader`.
    fn expect(reader: &[u8], pos: usize, label: &[u8]) -> (found: bool)
        ensures
            found == label_at(reader@, pos as int, label@),
            found ==> pos + label@.len() <= usize::MAX,
    {
        if label.len() > reader.len() || pos > reader.len() - label.len() {
            return false;
        }
        let mut k: usize = 0;
        while k < label.len()
            invariant
                k <= label.len(),
                pos + label.len() <= reader.len(),
                forall|j: int| 0 <= j < k ==> reader@[pos + j] == label@[j],
            decreases label.len() - k,
        {
            if reader[pos + k] != label[k] {
                assert(reader@.subrange(pos as int, pos + label@.len())[k as int] == reader@[pos
                    + k]);
                return false;
            }
            k = k + 1;
        }
        assert(reader@.subrange(pos as int, pos + label@.len()) =~= label@);
        true
    }

    /// Reads the optional address written at index `pos` of `reader`.
    fn read_address(reader: &[u8], pos: usize) -> (r: Option<(Option<u64>, usize)>)
        ensures
            match address_at(reader@, pos as int) {
                Some((a, e)) => r matches Some((x, n)) && x == a && n == e && pos < e
                    <= reader@.len(),
                None => r is None,
            },
    {
        let null = Label::Null.to_vec();
        if Self::expect(reader, pos, null.as_slice()) {
            return Some((None, pos + 4));
        }
        if pos > reader.len() {
            return None;
        }
        let ghost s = reader@;
        let mut i: usize = pos;
        let mut acc: u64 = 0;
        while i < reader.len() && 0x30 <= reader[i] && reader[i] <= 0x39
            invariant
                s == reader@,
                pos <= i <= reader.len(),
                forall|j: int| pos <= j < i ==> is_digit(#[trigger] s[j]),
                acc == digits_value(s.subrange(pos as int, i as int)),
            decreases reader.len() - i,
        {
            let d: u64 = (reader[i] - 0x30) as u64;
            proof {
                let longer = s.subrange(pos as int, i + 1);
                assert(longer.drop_last() =~= s.subrange(pos as int, i as int));
                assert(digits_value(longer) == 10 * acc + d);
            }
            if acc > (u64::MAX - d) / 10 {
                proof {
                    let e = digits_end(s, pos as int);
                    lemma_digits_end_bounds(s, pos as int);
                    assert(e > i) by {
                        if e <= i {
                            assert(is_digit(s[e]));
                        }
                    }
                    let all = s.subrange(pos as int, e);
                    assert forall|j: int| 0 <= j < all.len() implies is_digit(#[trigger] all[j]) by {
                        assert(all[j] == s[pos + j]);
                    }
                    lemma_digits_value_grows(all, i + 1 - pos);
                    assert(all.subrange(0, i + 1 - pos) =~= s.subrange(pos as int, i + 1));
                    assert(digits_value(s.subrange(pos as int, i + 1)) > u64::MAX);
                    assert(digits_value(all) > u64::MAX);
                    Label::Null.lemma_shape();
                }
                return None;
            }
            acc = acc * 10 + d;
            i = i + 1;
        }
        proof {
            lemma_digits_end_is(s, pos as int, i as int);
        }
        if i == pos || i >= reader.len() || (reader[pos] == ZERO && i > pos + 1) {
            return None;
        }
        Some((Some(acc), i))
    }

    /// Reads the optional address that follows `label` at index `pos`.
    fn read_field(reader: &[u8], pos: usize, label: Label) -> (r: Option<(Option<u64>, usize)>)
        ensures
            match field_at(reader@, pos as int, label) {
                Some((a, e)) => r matches Some((x, n)) && x == a && n == e && pos < e
                    <= reader@.len(),
                None => r is None,
            },
    {
        let bytes = label.to_vec();
        if Self::expect(reader, pos, bytes.as_slice()) {
            Self::read_address(reader, pos + bytes.len())
        } else {
            None
        }
    }

    /// Reads the node record at the start of `reader` and says how many
    /// bytes it takes. What follows the record is not looked at.
    pub fn node_from_reader(reader: &[u8]) -> (r: Result<(TreeNodeHD, usize), DbError>)
        ensures
            match node_at(reader@, 0) {
                Some((record, e)) => r matches Ok((node, n)) && node@ == record && n == e,
                None => r matches Err(e) && e == DbError::Codec,
            },
    {
        let open = Label::Key.to_vec();
        if !Self::expect(reader, 0, open.as_slice()) {
            return Err(DbError::Codec);
        }
        assert(open@.len() == 7);
        let (key, p1) = match Self::read_text(reader, 7) {
            Some(found) => found,
            None => { return Err(DbError::Codec); },
        };
        let (value_addr, p2) = match Self::read_field(reader, p1, Label::ValueAddr) {
            Some(found) => found,
            None => { return Err(DbError::Codec); },
        };
        let (left_addr, p3) = match Self::read_field(reader, p2, Label::LeftAddr) {
            Some(found) => found,
            None => { return Err(DbError::Codec); },
        };
        let (right_addr, p4) = match Self::read_field(reader, p3, Label::RightAddr) {
            Some(found) => found,
            None => { return Err(DbError::Codec); },
        };
        let (size, p5) = match Self::read_field(reader, p4, Label::Size) {
            Some((Some(size), p5)) => (size, p5),
            _ => { return Err(DbError::Codec); },
        };
        let close = Label::Close.to_vec();
        if size > usize::MAX as u64 || !Self::expect(reader, p5, close.as_slice()) {
            return Err(DbError::Codec);
        }
        Ok((TreeNodeHD { key, value_addr, left_addr, right_addr, size: size as usize }, p5 + 1))
    }

    /// Accepts `encoded` as the record of `value` if it reads back as
    /// `value` and as nothing longer or shorter.
    pub fn check_text(value: &String, encoded: Vec<u8>) -> (r: Result<Vec<u8>, DbError>)
        ensures
            r == (if text_at(encoded@, 0) == Some((value@, encoded@.len() as int)) {
                Ok::<Vec<u8>, DbError>(encoded)
            } else {
                Err::<Vec<u8>, DbError>(DbError::Codec)
            }),
    {
        match Self::from_reader(encoded.as_slice()) {
            Ok((s, n)) => {
                if n == encoded.len() && s == *value {
                    Ok(encoded)
                } else {
                    Err(DbError::Codec)
                }
            },
            Err(_) => Err(DbError::Codec),
        }
    }

    /// Appends the record of `value` to `writer`, after checking that the
    /// record reads back as `value`.
    pub fn to_writer(writer: &mut Vec<u8>, value: &String) -> (r: Result<(), DbError>)
        ensures
            text_encodable(value@) ==> {
                &&& r is Ok
                &&& json_text_bytes(value@) matches Some(w)
                &&& final(writer)@ == old(writer)@ + w
            },
            !text_encodable(value@) ==> {
                &&& r == Err::<(), DbError>(DbError::Codec)
                &&& final(writer)@ == old(writer)@
            },
    {
        match json_to_writer(value) {
            Ok(encoded) => match Self::check_text(value, encoded) {
                Ok(checked) => {
                    writer.extend_from_slice(checked.as_slice());
                    Ok(())
                },
                Err(e) => Err(e),
            },
            Err(_) => Err(DbError::Codec),
        }
    }

    /// Appends the decimal digits of `n` to `writer`.
    fn write_decimal(writer: &mut Vec<u8>, n: u64)
        ensures
            final(writer)@ == old(writer)@ + decimal(n as nat),
        decreases n,
    {
        if n < 10 {
            writer.push(0x30 + n as u8);
            assert(final(writer)@ =~= old(writer)@ + decimal(n as nat));
        } else {
            Self::write_decimal(writer, n / 10);
            writer.push(0x30 + (n % 10) as u8);
            assert(writer@ =~= old(writer)@ + decimal(n as nat));
        }
    }

    /// Appends an optional address to `writer`: its digits, or `null`.
    fn write_address(writer: &mut Vec<u8>, address: Option<u64>)
        ensures
            final(writer)@ == old(writer)@ + address_bytes(address),
    {
        match address {
            Some(a) => Self::write_decimal(writer, a),
            None => {
                let null = Label::Null.to_vec();
                writer.extend_from_slice(null.as_slice());
            },
        }
    }

    /// Appends `label` and an optional address to `writer`.
    fn write_field(writer: &mut Vec<u8>, label: Label, address: Option<u64>)
        ensures
            final(writer)@ == old(writer)@ + label.bytes() + address_bytes(address),
    {
        let bytes = label.to_vec();
        writer.extend_from_slice(bytes.as_slice());
        Self::write_address(writer, address);
    }

    /// Appends the record of `node` to `writer`. The record reads back as
    /// `node` wherever it comes to stand; the one thing that can fail is
    /// writing the key.
    pub fn node_to_writer(writer: &mut Vec<u8>, node: &TreeNodeHD) -> (r: Result<(), DbError>)
        ensures
            text_encodable(node.key@) ==> {
                &&& r is Ok
                &&& node_bytes(node@) matches Some(w)
                &&& final(writer)@ == old(writer)@ + w
                &&& node_at(w, 0) == Some((node@, w.len() as int))
            },
            !text_encodable(node.key@) ==> {
                &&& r == Err::<(), DbError>(DbError::Codec)
                &&& final(writer)@ == old(writer)@
            },
    {
        let mut buf = Label::Key.to_vec();
        match Self::to_writer(&mut buf, &node.key) {
            Ok(()) => {},
            Err(e) => { return Err(e); },
        }
        Self::write_field(&mut buf, Label::ValueAddr, node.value_addr);
        Self::write_field(&mut buf, Label::LeftAddr, node.left_addr);
        Self::write_field(&mut buf, Label::RightAddr, node.right_addr);
        Self::write_field(&mut buf, Label::Size, Some(node.size as u64));
        let close = Label::Close.to_vec();
        buf.extend_from_slice(close.as_slice());
        proof {
            lemma_node_round_trip(node@);
        }
        writer.extend_from_slice(buf.as_slice());
        Ok(())
    }
}

/// The error of `bincode`, which the library only ever maps to
/// `DbError::Codec`.
#[verifier::external_type_specification]
#[verifier::external_body]
pub struct ExBincodeErrorKind(bincode::ErrorKind);

/// The superblock record of an optional root address: one byte that says
/// whether an address follows, then the address in eight bytes, lowest
/// first.
pub open spec fn root_record(root: Option<u64>) -> Seq<u8> {
    match root {
        None => seq![0u8],
        Some(a) => seq![1u8] + spec_u64_to_le_bytes(a),
    }
}

/// The optional root address that the superblock record at the start of
/// `s` holds, or `None` where no record stands there.
pub open spec fn root_at(s: Seq<u8>) -> Option<Option<u64>> {
    if s.len() >= 1 && s[0] == 0 {
        Some(None)
    } else if s.len() >= 9 && s[0] == 1 {
        Some(Some(spec_u64_from_le_bytes(s.subrange(1, 9))))
    } else {
        None
    }
}

/// Calls `bincode::serialize_into` on a fresh buffer for an optional
/// address. In bincode's default configuration it writes the byte 0 for
/// `None`, and the byte 1 and the address in eight little-endian bytes
/// for `Some`. It reports no error here: the writer is a vector, and the
/// default configuration sets no limit on the size.
#[verifier::external_body]
fn bincode_serialize_into(root: &Option<u64>) -> (r: Result<Vec<u8>, Box<bincode::ErrorKind>>)
    ensures
        r is Ok,
        r matches Ok(b) ==> b@ == root_record(*root),
{
    let mut buf: Vec<u8> = Vec::new();
    bincode::serialize_into(&mut buf, root)?;
    Ok(buf)
}

/// Calls `bincode::deserialize_from` for an optional address, with the
/// bytes as the reader. It reads one byte; for 0 it returns `None`, for 1
/// it reads eight more bytes as a little-endian address, and it reports an
/// error for any other byte and where the bytes end too early. Bytes that
/// follow the record are left alone.
#[verifier::external_body]
fn bincode_deserialize_from(bytes: &[u8]) -> (r: Result<Option<u64>, Box<bincode::ErrorKind>>)
    ensures
        r is Ok <==> root_at(bytes@) is Some,
        r matches Ok(root) ==> root_at(bytes@) == Some(root),
{
    bincode::deserialize_from::<&[u8], Option<u64>>(bytes)
}

/// Round trip of the superblock record: the record of `root` is read back
/// as `root`, whatever follows it.
pub proof fn lemma_root_round_trip(root: Option<u64>, rest: Seq<u8>)
    ensures
        root_at(root_record(root) + rest) == Some(root),
        root_record(root).len() == (if root is Some { 9int } else { 1int }),
{
    lemma_auto_spec_u64_to_from_le_bytes();
    let w = root_record(root) + rest;
    match root {
        None => {},
        Some(a) => {
            assert(w.subrange(1, 9) =~= spec_u64_to_le_bytes(a));
        },
    }
}

impl SerdeBincode {
    /// Reads the superblock record at the start of `reader`. What follows
    /// the record is not looked at.
    pub fn from_reader(reader: &[u8]) -> (r: Result<Option<u64>, DbError>)
        ensures
            r == (match root_at(reader@) {
                Some(root) => Ok::<Option<u64>, DbError>(root),
                None => Err::<Option<u64>, DbError>(DbError::Codec),
            }),
    {
        match bincode_deserialize_from(reader) {
            Ok(root) => Ok(root),
            Err(_) => Err(DbError::Codec),
        }
    }

    /// Appends the superblock record of `value` to `writer`.
    pub fn to_writer(writer: &mut Vec<u8>, value: &Option<u64>) -> (r: Result<(), DbError>)
        ensures
            r is Ok,
            final(writer)@ == old(writer)@ + root_record(*value),
    {
        match bincode_serialize_into(value) {
            Ok(encoded) => {
                writer.extend_from_slice(encoded.as_slice());
                Ok(())
            },
            Err(_) => Err(DbError::Codec),
        }
    }
}

} // verus!

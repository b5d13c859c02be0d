//! The append-only file behind the tree, held as the image of its bytes.
//!
//! The first `SUPERBLOCK` bytes are the superblock, which records the
//! address of the current root. Everything after them is the data region,
//! which only ever grows.

use vstd::prelude::*;
use vstd::slice::*;
use crate::error::DbError;
use crate::serde_interface::{lemma_root_round_trip, root_at, root_record, SerdeBincode};

verus! {

/// The length of the superblock in bytes.
pub const SUPERBLOCK: u64 = 512;

/// What the superblock records.
pub struct Meta {
    /// The address of the root node's record; `None` for the empty tree.
    pub root_addr: Option<u64>,
}

/// The root that a superblock record stands for: the address 0 lies
/// inside the superblock and means the empty tree, as `None` does.
pub open spec fn normal_root(root: Option<u64>) -> Option<u64> {
    match root {
        Some(a) => if a == 0 {
            None
        } else {
            Some(a)
        },
        None => None,
    }
}

/// The root address that the file `f` records, or `None` where its
/// superblock holds no record.
pub open spec fn root_of(f: Seq<u8>) -> Option<Option<u64>> {
    match root_at(f) {
        Some(root) => Some(normal_root(root)),
        None => None,
    }
}

/// The file `f` with the record of `root` written over the first bytes
/// of its superblock.
pub open spec fn with_root(f: Seq<u8>, root: Option<u64>) -> Seq<u8> {
    root_record(root) + f.skip(root_record(root).len() as int)
}

/// The file `f` filled with zeros up to the length of the superblock.
pub open spec fn zero_filled(f: Seq<u8>) -> Seq<u8> {
    Seq::new(SUPERBLOCK as nat, |i: int| if i < f.len() { f[i] } else { 0u8 })
}

/// The file that opening the bytes `data` gives: the bytes themselves, or,
/// where they are shorter than the superblock, a fresh file that records
/// the empty tree.
pub open spec fn opened(data: Seq<u8>) -> Seq<u8> {
    if data.len() >= SUPERBLOCK {
        data
    } else {
        with_root(zero_filled(data), None)
    }
}

/// The image of the backing file.
pub struct FileStorage {
    data: Vec<u8>,
}

impl View for FileStorage {
    type V = Seq<u8>;

    closed spec fn view(&self) -> Seq<u8> {
        self.data@
    }
}

impl FileStorage {
    /// The file holds a whole superblock.
    pub open spec fn wf(&self) -> bool {
        self@.len() >= SUPERBLOCK
    }

    /// Opens a file from its bytes. A file that is shorter than the
    /// superblock is filled with zeros up to the superblock's length and
    /// records the empty tree.
    pub fn new(data: Vec<u8>) -> (r: Result<FileStorage, DbError>)
        ensures
            r matches Ok(s) && s.wf() && s@ == opened(data@),
            data@.len() < SUPERBLOCK ==> opened(data@).len() == SUPERBLOCK && root_of(
                opened(data@),
            ) == Some(None::<u64>),
    {
        let mut storage = FileStorage { data };
        match storage.ensure_superblock() {
            Ok(()) => Ok(storage),
            Err(e) => Err(e),
        }
    }

    /// Makes sure that the file holds a superblock.
    fn ensure_superblock(&mut self) -> (r: Result<(), DbError>)
        ensures
            r is Ok,
            final(self).wf(),
            final(self)@ == opened(old(self)@),
            old(self)@.len() < SUPERBLOCK ==> final(self)@.len() == SUPERBLOCK && root_of(
                final(self)@,
            ) == Some(None::<u64>),
    {
        if self.data.len() < SUPERBLOCK as usize {
            self.data.resize(SUPERBLOCK as usize, 0u8);
            assert(self.data@ =~= zero_filled(old(self)@));
            self.commit_root_addr(0)
        } else {
            Ok(())
        }
    }

    /// The length of the file.
    pub fn len(&self) -> (len: u64)
        ensures
            len == self@.len(),
    {
        self.data.len() as u64
    }

    /// The bytes of the file.
    pub fn as_bytes(&self) -> (bytes: &Vec<u8>)
        ensures
            bytes@ == self@,
    {
        &self.data
    }

    /// The bytes of the file from `offset` to its end; nothing where
    /// `offset` lies behind the end.
    pub fn tail(&self, offset: u64) -> (bytes: &[u8])
        ensures
            bytes@ == (if offset <= self@.len() {
                self@.subrange(offset as int, self@.len() as int)
            } else {
                Seq::<u8>::empty()
            }),
    {
        let len: usize = self.data.len();
        if offset <= len as u64 {
            slice_subrange(self.data.as_slice(), offset as usize, len)
        } else {
            slice_subrange(self.data.as_slice(), len, len)
        }
    }

    /// Reads up to `n` bytes at `offset`: as many as the file holds there.
    pub fn read(&self, offset: u64, n: usize) -> (bytes: Vec<u8>)
        ensures
            bytes@ == (if offset <= self@.len() {
                if offset + n <= self@.len() {
                    self@.subrange(offset as int, offset + n)
                } else {
                    self@.subrange(offset as int, self@.len() as int)
                }
            } else {
                Seq::<u8>::empty()
            }),
    {
        let rest = self.tail(offset);
        if n <= rest.len() {
            slice_to_vec(slice_subrange(rest, 0, n))
        } else {
            slice_to_vec(rest)
        }
    }

    /// Appends `data` to the file and says how many bytes were written.
    /// Every write goes to the end of the file: no byte that the file held
    /// changes.
    pub fn write(&mut self, data: &[u8]) -> (r: Result<usize, DbError>)
        ensures
            r == Ok::<usize, DbError>(data@.len() as usize),
            final(self)@ == old(self)@ + data@,
    {
        self.data.extend_from_slice(data);
        Ok(data.len())
    }

    /// The address at which the next write will begin: the end of the
    /// file.
    pub fn get_write_addr(&mut self) -> (r: Result<u64, DbError>)
        ensures
            r == Ok::<u64, DbError>(old(self)@.len() as u64),
            old(self)@.len() <= u64::MAX,
            final(self)@ == old(self)@,
    {
        Ok(self.data.len() as u64)
    }

    /// The address of the current root, as the superblock records it.
    pub fn get_root_addr(&mut self) -> (r: Result<Option<u64>, DbError>)
        ensures
            r == (match root_of(old(self)@) {
                Some(root) => Ok::<Option<u64>, DbError>(root),
                None => Err::<Option<u64>, DbError>(DbError::Codec),
            }),
            final(self)@ == old(self)@,
    {
        let meta = match SerdeBincode::from_reader(self.data.as_slice()) {
            Ok(root_addr) => Meta { root_addr },
            Err(e) => { return Err(e); },
        };
        match meta.root_addr {
            Some(addr) => if addr == 0 {
                Ok(None)
            } else {
                Ok(Some(addr))
            },
            None => Ok(None),
        }
    }

    /// Records `addr` as the address of the root; 0 records the empty
    /// tree. Only the first bytes of the superblock change.
    pub fn commit_root_addr(&mut self, addr: u64) -> (r: Result<(), DbError>)
        requires
            old(self).wf(),
        ensures
            final(self).wf(),
            final(self)@.len() == old(self)@.len(),
            forall|i: int| SUPERBLOCK <= i < old(self)@.len() ==> final(self)@[i] == old(self)@[i],
            r is Ok,
            final(self)@ == with_root(old(self)@, normal_root(Some(addr))),
            root_of(final(self)@) == Some(normal_root(Some(addr))),
    {
        let meta = if addr == 0 {
            Meta { root_addr: None }
        } else {
            Meta { root_addr: Some(addr) }
        };
        let mut record: Vec<u8> = Vec::new();
        match SerdeBincode::to_writer(&mut record, &meta.root_addr) {
            Ok(()) => {},
            Err(e) => { return Err(e); },
        }
        proof {
            lemma_root_round_trip(meta.root_addr, Seq::<u8>::empty());
        }
        let ghost before = self.data@;
        let mut i: usize = 0;
        while i < record.len()
            invariant
                i <= record@.len() <= 9,
                self.data@.len() == before.len(),
                before.len() >= SUPERBLOCK,
                forall|j: int| 0 <= j < i ==> self.data@[j] == record@[j],
                forall|j: int| i <= j < before.len() ==> self.data@[j] == before[j],
            decreases record.len() - i,
        {
            self.data[i] = record[i];
            i = i + 1;
        }
        proof {
            let rest = before.skip(record@.len() as int);
            assert(self.data@ =~= record@ + rest);
            lemma_root_round_trip(meta.root_addr, rest);
        }
        Ok(())
    }
}

} // verus!

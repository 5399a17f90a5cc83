//! Pluggable storage backends. A store is a byte string that starts with
//! a 16-byte header (an 8-byte magic, the format version as 4
//! little-endian bytes, zero padding) and then only grows by appends,
//! except when recovery cuts off a torn tail.

use vstd::prelude::*;

verus! {

/// The magic that starts every store.
pub const MAGIC: [u8; 8] = [77u8, 79u8, 84u8, 73u8, 70u8, 0u8, 0u8, 1u8];

/// On-disk format version; stores of any other version are refused.
pub const FORMAT_VERSION: u32 = 4;

/// Length of the header.
pub const HEADER_LEN: u64 = 16;

#[derive(Debug)]
pub enum StorageError {
    /// The medium failed; `message` says how.
    Io { path: String, message: String },
    /// The file does not start with [`MAGIC`].
    BadMagic(String),
    /// The file is of another format version.
    BadVersion { path: String, found: u32, expected: u32 },
    /// The file is shorter than a header.
    ShortHeader { path: String, len: u64, expected: u64 },
    /// A truncation would cut into the header.
    TruncateBelowHeader { new_len: u64, header_len: u64 },
    /// A host-supplied backend reported an error.
    JsHostError { message: String },
}

/// The header bytes as a sequence.
pub open spec fn magic_seq() -> Seq<u8> {
    seq![77u8, 79u8, 84u8, 73u8, 70u8, 0u8, 0u8, 1u8]
}

/// The header of a fresh store.
pub open spec fn header_seq() -> Seq<u8> {
    magic_seq() + seq![4u8, 0u8, 0u8, 0u8] + Seq::new(4, |i: int| 0u8)
}

/// Append-only byte store. Writes go to the end; reads are by absolute
/// offset.
pub trait Storage {
    /// The store's contents, header included.
    closed spec fn bytes(&self) -> Seq<u8> {
        Seq::empty()
    }

    /// Whether the backend answers every append, every read within its
    /// contents and every cut that keeps the header; one on a medium that
    /// can fail does not promise it.
    closed spec fn reliable(&self) -> bool {
        false
    }

    /// Appends `data` and returns the offset where it begins. On error
    /// the contents are unchanged.
    fn append(&mut self, data: &[u8]) -> (r: Result<u64, StorageError>)
        ensures
            r matches Ok(off) ==> off == old(self).bytes().len() && final(self).bytes() == old(
                self,
            ).bytes() + data@,
            r is Err ==> final(self).bytes() == old(self).bytes(),
            old(self).reliable() ==> r is Ok,
            final(self).reliable() == old(self).reliable(),
            final(self).pads_with_zeros() == old(self).pads_with_zeros(),
    ;

    /// Whether cutting the store to a length past its end pads it with
    /// zero bytes up to that length (as a file does); a backend that does
    /// not leaves its contents as they are.
    closed spec fn pads_with_zeros(&self) -> bool {
        true
    }

    /// Reads `len` bytes at `offset`. A read that does not lie within the
    /// contents fails, and every failure is an `Io` error.
    fn read_at(&mut self, offset: u64, len: usize) -> (r: Result<Vec<u8>, StorageError>)
        ensures
            final(self).bytes() == old(self).bytes(),
            r is Err ==> r matches Err(StorageError::Io { .. }),
            final(self).pads_with_zeros() == old(self).pads_with_zeros(),
            r matches Ok(v) ==> offset + len <= old(self).bytes().len() && v@ == old(
                self,
            ).bytes().subrange(offset as int, offset + len),
            old(self).reliable() && offset + len <= old(self).bytes().len() ==> r is Ok,
            final(self).reliable() == old(self).reliable(),
    ;

    /// Total length of the store, header included.
    fn len(&self) -> (r: u64)
        ensures
            r == self.bytes().len(),
    ;

    /// True while nothing follows the header.
    fn is_empty(&self) -> (r: bool)
        ensures
            r == (self.bytes().len() <= HEADER_LEN),
    {
        self.len() <= HEADER_LEN
    }

    /// Cuts the store to `new_len` bytes. A length below the header is
    /// refused with `TruncateBelowHeader` and changes nothing; a length
    /// past the end pads the store with zeros or leaves it as it is, as
    /// [`Storage::pads_with_zeros`] says.
    fn truncate(&mut self, new_len: u64) -> (r: Result<(), StorageError>)
        ensures
            new_len < HEADER_LEN ==> (r matches Err(StorageError::TruncateBelowHeader {
                new_len: n,
                header_len: h,
            }) && n == new_len && h == HEADER_LEN && final(self).bytes() == old(self).bytes()),
            r is Ok && new_len <= old(self).bytes().len() ==> final(self).bytes() == old(
                self,
            ).bytes().subrange(0, new_len as int),
            r is Ok && new_len > old(self).bytes().len() ==> final(self).bytes() == if old(
                self,
            ).pads_with_zeros() {
                old(self).bytes() + Seq::new((new_len - old(self).bytes().len()) as nat, |i: int| 0u8)
            } else {
                old(self).bytes()
            },
            final(self).reliable() == old(self).reliable(),
            final(self).pads_with_zeros() == old(self).pads_with_zeros(),
            old(self).reliable() && HEADER_LEN <= new_len ==> r is Ok,
    ;

    /// What the backend reports as free bytes on its medium, if it can
    /// tell.
    closed spec fn free_bytes(&self) -> Option<u64> {
        None
    }

    /// Bytes free on the underlying medium, where the backend can tell.
    fn free_space(&self) -> (r: Option<u64>)
        ensures
            r == self.free_bytes(),
    ;
}

/// The header of a fresh store, as bytes.
pub fn header_bytes() -> (r: Vec<u8>)
    ensures
        r@ == header_seq(),
        r@.len() == HEADER_LEN,
{
    let mut v: Vec<u8> = Vec::new();
    let mut i: usize = 0;
    while i < 8
        invariant
            i <= 8,
            v@ == magic_seq().subrange(0, i as int),
        decreases 8 - i,
    {
        v.push(MAGIC[i]);
        assert(magic_seq().subrange(0, i + 1 as int) =~= magic_seq().subrange(0, i as int).push(
            magic_seq()[i as int],
        ));
        i = i + 1;
    }
    v.push(4u8);
    v.push(0u8);
    v.push(0u8);
    v.push(0u8);
    while v.len() < 16
        invariant
            8 + 4 <= v@.len() <= 16,
            v@.subrange(0, 12) == magic_seq() + seq![4u8, 0u8, 0u8, 0u8],
            forall|j: int| 12 <= j < v@.len() ==> v@[j] == 0u8,
        decreases 16 - v@.len(),
    {
        v.push(0u8);
        assert(v@.subrange(0, 12) =~= old_prefix(v@));
    }
    assert(v@ =~= header_seq());
    v
}

spec fn old_prefix(v: Seq<u8>) -> Seq<u8> {
    v.subrange(0, 12)
}

/// Checks the header of an existing store of length `len` whose first
/// bytes are `header`: too short is `ShortHeader`, a foreign magic is
/// `BadMagic`, another version is `BadVersion`.
pub fn check_header(path: &str, header: &[u8], len: u64) -> (r: Result<(), StorageError>)
    requires
        len >= HEADER_LEN ==> header@.len() >= HEADER_LEN,
    ensures
        len < HEADER_LEN ==> (r matches Err(StorageError::ShortHeader { path: p, len: l, expected: e })
            && p@ == path@ && l == len && e == HEADER_LEN),
        len >= HEADER_LEN && header@.subrange(0, 8) != magic_seq() ==> (r matches Err(
            StorageError::BadMagic(p),
        ) && p@ == path@),
        len >= HEADER_LEN && header@.subrange(0, 8) == magic_seq() && crate::wire::read_u32(header@, 8)
            != FORMAT_VERSION ==> (r matches Err(StorageError::BadVersion {
            path: p,
            found: f,
            expected: e,
        }) && p@ == path@ && f == crate::wire::read_u32(header@, 8) && e == FORMAT_VERSION),
        r is Ok <==> len >= HEADER_LEN && header@.subrange(0, 8) == magic_seq()
            && crate::wire::read_u32(header@, 8) == FORMAT_VERSION,
{
    if len < HEADER_LEN {
        return Err(StorageError::ShortHeader { path: path.to_owned(), len, expected: HEADER_LEN });
    }
    let mut i: usize = 0;
    while i < 8
        invariant
            i <= 8,
            len >= HEADER_LEN,
            header@.len() >= 16,
            forall|j: int| 0 <= j < i ==> header@[j] == magic_seq()[j],
        decreases 8 - i,
    {
        if header[i] != MAGIC[i] {
            assert(header@.subrange(0, 8)[i as int] != magic_seq()[i as int]);
            return Err(StorageError::BadMagic(path.to_owned()));
        }
        i = i + 1;
    }
    assert(header@.subrange(0, 8) =~= magic_seq());
    let version = crate::wire::get_u32_le(header, 8);
    if version != FORMAT_VERSION {
        return Err(
            StorageError::BadVersion { path: path.to_owned(), found: version, expected: FORMAT_VERSION },
        );
    }
    Ok(())
}

/// An in-process store.
pub struct MemoryStorage {
    data: Vec<u8>,
}

impl MemoryStorage {
    /// A store holding just a fresh header.
    pub fn new() -> (r: MemoryStorage)
        ensures
            r.bytes() == header_seq(),
            r.reliable(),
            !r.pads_with_zeros(),
    {
        MemoryStorage { data: header_bytes() }
    }

    /// A store holding `bytes` as they are, such as the contents of
    /// another store.
    pub fn from_bytes(bytes: Vec<u8>) -> (r: MemoryStorage)
        ensures
            r.bytes() == bytes@,
            r.reliable(),
            !r.pads_with_zeros(),
    {
        MemoryStorage { data: bytes }
    }

    /// The contents, header included.
    pub fn as_bytes(&self) -> (r: &[u8])
        ensures
            r@ == self.bytes(),
    {
        self.data.as_slice()
    }
}

impl Storage for MemoryStorage {
    closed spec fn bytes(&self) -> Seq<u8> {
        self.data@
    }

    /// An in-process store answers every append, read within it and cut
    /// that keeps the header.
    closed spec fn reliable(&self) -> bool {
        true
    }

    /// An in-process store is never lengthened by a cut.
    closed spec fn pads_with_zeros(&self) -> bool {
        false
    }

    /// An in-process store has no medium to ask.
    open spec fn free_bytes(&self) -> Option<u64> {
        None
    }

    fn free_space(&self) -> (r: Option<u64>) {
        None
    }

    fn append(&mut self, data: &[u8]) -> (r: Result<u64, StorageError>) {
        let offset = self.data.len() as u64;
        let mut i: usize = 0;
        while i < data.len()
            invariant
                i <= data@.len(),
                self.data@ == old(self).data@ + data@.subrange(0, i as int),
            decreases data@.len() - i,
        {
            self.data.push(data[i]);
            assert(data@.subrange(0, i + 1 as int) =~= data@.subrange(0, i as int).push(data@[i as int]));
            i = i + 1;
        }
        assert(data@.subrange(0, data@.len() as int) =~= data@);
        Ok(offset)
    }

    fn read_at(&mut self, offset: u64, len: usize) -> (r: Result<Vec<u8>, StorageError>) {
        let n = self.data.len();
        if offset > n as u64 || len > n - (offset as usize) {
            return Err(
                StorageError::Io {
                    path: ":memory:".to_owned(),
                    message: "read past end of memory store".to_owned(),
                },
            );
        }
        let start = offset as usize;
        let mut out: Vec<u8> = Vec::new();
        let mut i: usize = 0;
        while i < len
            invariant
                start + len <= n,
                n == self.data@.len(),
                i <= len,
                out@ == self.data@.subrange(start as int, start + i),
            decreases len - i,
        {
            out.push(self.data[start + i]);
            assert(self.data@.subrange(start as int, start + i + 1) =~= self.data@.subrange(
                start as int,
                start + i,
            ).push(self.data@[start + i]));
            i = i + 1;
        }
        Ok(out)
    }

    fn len(&self) -> (r: u64) {
        self.data.len() as u64
    }

    fn truncate(&mut self, new_len: u64) -> (r: Result<(), StorageError>) {
        if new_len < HEADER_LEN {
            return Err(StorageError::TruncateBelowHeader { new_len, header_len: HEADER_LEN });
        }
        if new_len < self.data.len() as u64 {
            self.data.truncate(new_len as usize);
        }
        Ok(())
    }
}

} // verus!

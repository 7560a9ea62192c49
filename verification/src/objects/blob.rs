//! Blob objects: opaque payload bytes with a derived line count.

use vstd::prelude::*;

use crate::errors::GitError;
use crate::objects::{
    bytes_eq, inflate_zlib_of, kind_blob_bytes, lossy_utf8_of, parse_header, parse_header_spec,
    GitObject,
};

verus! {

/// A blob: the payload bytes of a loose object of kind `blob`.
#[derive(Debug, Clone)]
pub struct BlobObject {
    /// The payload, byte for byte.
    pub data: Vec<u8>,
    /// The size the object header declared.
    pub size: i32,
    /// The hex object id this blob was loaded under.
    pub oid: String,
}

/// How many newline bytes a payload holds.
pub open spec fn count_newlines(s: Seq<u8>) -> int
    decreases s.len(),
{
    if s.len() == 0 {
        0
    } else {
        count_newlines(s.drop_last()) + if s.last() == 10 {
            1int
        } else {
            0int
        }
    }
}

impl BlobObject {
    /// Wraps payload bytes with their declared size and object id.
    pub fn new(data: Vec<u8>, size: i32, oid: String) -> (r: Self)
        ensures
            r.data == data,
            r.size == size,
            r.oid == oid,
    {
        BlobObject { data, size, oid }
    }

    /// The payload decoded as text, with invalid UTF-8 replaced;
    /// a valid UTF-8 payload decodes losslessly.
    pub fn to_string(&self) -> (r: String)
        ensures
            r@ == lossy_utf8_of(self.data@),
            vstd::utf8::valid_utf8(self.data@) ==> r@ == vstd::utf8::decode_utf8(self.data@),
    {
        crate::objects::bytes_to_string_lossy(&self.data)
    }

    /// One more than the number of newline bytes: an empty blob counts
    /// as one line, and a missing trailing newline still counts.
    pub fn line_amnt(&self) -> (r: u32)
        requires
            self.data@.len() < u32::MAX,
        ensures
            r == 1 + count_newlines(self.data@),
    {
        let n = self.data.len();
        let mut count: u32 = 0;
        let mut i: usize = 0;
        while i < n
            invariant
                i <= n == self.data@.len() < u32::MAX,
                count == count_newlines(self.data@.take(i as int)),
                count <= i,
            decreases n - i,
        {
            proof {
                assert(self.data@.take(i + 1).drop_last() =~= self.data@.take(i as int));
                assert(self.data@.take(i + 1).last() == self.data@[i as int]);
            }
            if self.data[i] == 10 {
                count = count + 1;
            }
            i = i + 1;
        }
        proof {
            assert(self.data@.take(n as int) =~= self.data@);
        }
        1 + count
    }

    /// Parses a raw object as a blob: the declared kind must be
    /// `blob`, and the payload is taken verbatim.
    pub fn from_git_object(git_object: &GitObject) -> (r: Result<Box<Self>, GitError>)
        ensures
            match r {
                Ok(b) => match inflate_zlib_of(git_object.data@) {
                    Some(d) => match parse_header_spec(d) {
                        Some(h) => {
                            &&& h.0 == kind_blob_bytes()
                            &&& b.data@ == h.2
                            &&& b.size == h.1
                            &&& b.oid@ == git_object.oid@
                        },
                        None => false,
                    },
                    None => false,
                },
                Err(e) => {
                    &&& (e == GitError::CorruptObject <==> inflate_zlib_of(git_object.data@)
                        is None)
                    &&& (e == GitError::MalformedHeader <==> (inflate_zlib_of(git_object.data@)
                        matches Some(d) && parse_header_spec(d) is None))
                    &&& (e == GitError::KindMismatch <==> (inflate_zlib_of(git_object.data@)
                        matches Some(d) && parse_header_spec(d) matches Some(h) && h.0
                        != kind_blob_bytes()))
                    &&& (e == GitError::CorruptObject || e == GitError::MalformedHeader || e
                        == GitError::KindMismatch)
                },
            },
    {
        let data = match git_object.get_data() {
            Ok(v) => v,
            Err(_) => { return Err(GitError::CorruptObject) },
        };
        let (kind, size, payload) = match parse_header(data.as_slice()) {
            Ok(t) => t,
            Err(_) => { return Err(GitError::MalformedHeader) },
        };
        let blob_word: [u8; 4] = [98u8, 108u8, 111u8, 98u8];
        if !bytes_eq(kind.as_slice(), blob_word.as_slice()) {
            proof {
                assert(blob_word@ =~= kind_blob_bytes());
            }
            return Err(GitError::KindMismatch);
        }
        proof {
            assert(blob_word@ =~= kind_blob_bytes());
        }
        let oid = clone_string(&git_object.oid);
        Ok(Box::new(BlobObject::new(payload, size, oid)))
    }
}

/// Clones a string, keeping its characters.
pub fn clone_string(s: &String) -> (r: String)
    ensures
        r@ == s@,
{
    s.clone()
}

} // verus!

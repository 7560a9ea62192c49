//! Loose database objects: zlib-compressed buffers whose decompressed
//! form is `"<kind> <size>\0<payload>"`, the header grammar that splits
//! them, and the dispatch to the typed commit, tree and blob parsers.

pub mod commit;

pub mod tree;

pub mod blob;

use vstd::prelude::*;

use crate::errors::GitError;
use crate::text::{
    all_dec_digits, all_digit_bytes, bytes_range, dec_bytes_of, digit_bytes_val, digits_val,
    find_byte, find_char, hex_of, index_of_byte, index_of_char, lemma_dec_bytes_props,
    lemma_index_of_byte, lemma_index_of_char, parse_i32_digit_bytes, parse_u64_digits,
    str_to_chars, utf8_encode_chars,
};

verus! {

/// A coarse object-parsing error that names no cause; [`GitError`]
/// carries the detailed causes.
#[derive(Debug, Clone, Copy, PartialEq, Eq, Structural)]
pub struct ParseGitObjectError;

impl ParseGitObjectError {
    /// A short human-readable description of the error.
    pub fn message(&self) -> &'static str {
        "can't parse git object from input"
    }
}

/// What miniz_oxide's `decompress_to_vec_zlib` yields for a byte
/// sequence: the decompressed bytes of the zlib stream it starts
/// with (bytes after the stream's end are ignored), or nothing.
pub uninterp spec fn inflate_zlib_of(s: Seq<u8>) -> Option<Seq<u8>>;

/// Relies on miniz_oxide's `decompress_to_vec_zlib`: inflates the
/// zlib stream the bytes start with, failing when no whole valid
/// stream is there.
#[verifier::external_body]
pub(crate) fn zlib_decompress(data: &Vec<u8>) -> (r: Result<Vec<u8>, GitError>)
    ensures
        match r {
            Ok(v) => inflate_zlib_of(data@) == Some(v@),
            Err(e) => {
                &&& inflate_zlib_of(data@) is None
                &&& e == GitError::CorruptObject
            },
        },
{
    match miniz_oxide::inflate::decompress_to_vec_zlib(data.as_slice()) {
        Ok(v) => Ok(v),
        Err(_) => Err(GitError::CorruptObject),
    }
}

/// The 20-byte SHA-1 digest of a byte sequence, as sha1_smol
/// computes it.
pub uninterp spec fn sha1_of(s: Seq<u8>) -> Seq<u8>;

/// Relies on sha1_smol: `Sha1::from(..).digest().to_string()` renders
/// the 20-byte digest as 40 lower-case hexadecimal characters.
#[verifier::external_body]
pub(crate) fn sha1_hex(data: &Vec<u8>) -> (r: String)
    ensures
        r@ == hex_of(sha1_of(data@)),
        r@.len() == 40,
{
    sha1_smol::Sha1::from(data.as_slice()).digest().to_string()
}

/// What `String::from_utf8_lossy` makes of a byte sequence.
pub uninterp spec fn lossy_utf8_of(s: Seq<u8>) -> Seq<char>;

/// Relies on `String::from_utf8_lossy`: decodes UTF-8, substituting
/// the replacement character for invalid sequences; valid UTF-8, and
/// in particular ASCII, comes through unchanged.
#[verifier::external_body]
pub(crate) fn bytes_to_string_lossy(data: &Vec<u8>) -> (r: String)
    ensures
        r@ == lossy_utf8_of(data@),
        vstd::utf8::valid_utf8(data@) ==> r@ == vstd::utf8::decode_utf8(data@),
        (forall|i: int| 0 <= i < data@.len() ==> data@[i] < 128) ==> r@ == data@.map_values(
            |b: u8| b as char,
        ),
{
    String::from_utf8_lossy(data.as_slice()).to_string()
}

/// The header grammar on raw decompressed bytes: everything up to the
/// first NUL splits at the first space into a kind word and a decimal
/// size; the payload is everything after the NUL.  The size must be a
/// nonempty digit string whose value fits an `i32`.
pub open spec fn parse_header_spec(d: Seq<u8>) -> Option<(Seq<u8>, int, Seq<u8>)> {
    match index_of_byte(d, 0, 0) {
        None => None,
        Some(nul) => {
            let pre = d.subrange(0, nul);
            let payload = d.subrange(nul + 1, d.len() as int);
            match index_of_byte(pre, 32, 0) {
                None => None,
                Some(sp) => {
                    let kind = pre.subrange(0, sp);
                    let digits = pre.subrange(sp + 1, pre.len() as int);
                    if digits.len() > 0 && all_digit_bytes(digits) && digit_bytes_val(digits)
                        <= i32::MAX {
                        Some((kind, digit_bytes_val(digits), payload))
                    } else {
                        None
                    }
                },
            }
        },
    }
}

/// Splits raw decompressed object bytes into kind, declared size and
/// payload, exactly as [`parse_header_spec`] describes.
pub fn parse_header(data: &[u8]) -> (r: Result<(Vec<u8>, i32, Vec<u8>), GitError>)
    ensures
        match r {
            Ok(t) => parse_header_spec(data@) == Some((t.0@, t.1 as int, t.2@)),
            Err(e) => {
                &&& parse_header_spec(data@) is None
                &&& e == GitError::MalformedHeader
            },
        },
{
    let ghost d = data@;
    let nul = match find_byte(data, 0, 0) {
        Some(i) => i,
        None => { return Err(GitError::MalformedHeader) },
    };
    proof {
        lemma_index_of_byte(d, 0, 0);
    }
    let ghost pre = d.subrange(0, nul as int);
    let sp = match find_byte(data, 32, 0) {
        Some(i) => i,
        None => {
            proof {
                lemma_index_of_byte(d, 32, 0);
                lemma_index_of_byte(pre, 32, 0);
                if index_of_byte(pre, 32, 0) is Some {
                    let i = index_of_byte(pre, 32, 0)->Some_0;
                    assert(d[i] == 32);
                }
            }
            return Err(GitError::MalformedHeader)
        },
    };
    proof {
        lemma_index_of_byte(d, 32, 0);
    }
    if sp > nul {
        proof {
            lemma_index_of_byte(pre, 32, 0);
            if index_of_byte(pre, 32, 0) is Some {
                let i = index_of_byte(pre, 32, 0)->Some_0;
                assert(d[i] == 32);
            }
        }
        return Err(GitError::MalformedHeader);
    }
    proof {
        // The first space of the whole buffer lies before the NUL, so
        // it is also the first space of the pre-NUL segment.
        assert(d[nul as int] == 0);
        assert(sp != nul);
        lemma_index_of_byte(pre, 32, 0);
        match index_of_byte(pre, 32, 0) {
            Some(i) => {
                assert(d[i] == 32);
                assert(pre[sp as int] == 32);
            },
            None => {
                assert(pre[sp as int] == 32);
            },
        }
        assert(index_of_byte(pre, 32, 0) == Some(sp as int));
        assert(pre.subrange(sp + 1, pre.len() as int) =~= d.subrange(sp + 1, nul as int));
    }
    let size = match parse_i32_digit_bytes(data, sp + 1, nul) {
        Some(v) => v,
        None => { return Err(GitError::MalformedHeader) },
    };
    let kind = bytes_range(data, 0, sp);
    let n = data.len();
    proof {
        assert(d.len() == n);
    }
    let payload = bytes_range(data, nul + 1, n);
    proof {
        assert(pre.subrange(0, sp as int) =~= d.subrange(0, sp as int));
    }
    Ok((kind, size, payload))
}

/// Constructing `"<kind> <size>\0<payload>"` from a kind without
/// spaces or NUL bytes and parsing it back recovers the original
/// triple exactly.
pub proof fn lemma_header_round_trip(kind: Seq<u8>, size: int, payload: Seq<u8>)
    requires
        0 <= size <= i32::MAX,
        forall|i: int| 0 <= i < kind.len() ==> kind[i] != 0 && #[trigger] kind[i] != 32,
    ensures
        parse_header_spec(kind + seq![32u8] + dec_bytes_of(size) + seq![0u8] + payload) == Some(
            (kind, size, payload),
        ),
{
    lemma_dec_bytes_props(size);
    let digits = dec_bytes_of(size);
    let d = kind + seq![32u8] + digits + seq![0u8] + payload;
    let nul = kind.len() + 1 + digits.len();
    assert(d[nul as int] == 0);
    assert forall|j: int| 0 <= j < nul implies d[j] != 0 by {
        if j < kind.len() {
            assert(d[j] == kind[j]);
        } else if j == kind.len() {
            assert(d[j] == 32);
        } else {
            assert(d[j] == digits[j - kind.len() - 1]);
        }
    }
    lemma_index_of_byte(d, 0, 0);
    match index_of_byte(d, 0, 0) {
        Some(i) => {
            assert(i == nul);
        },
        None => {
            assert(d[nul as int] != 0);
        },
    }
    let pre = d.subrange(0, nul as int);
    assert(pre[kind.len() as int] == 32);
    assert forall|j: int| 0 <= j < kind.len() implies pre[j] != 32 by {
        assert(pre[j] == kind[j]);
    }
    lemma_index_of_byte(pre, 32, 0);
    match index_of_byte(pre, 32, 0) {
        Some(i) => {
            if i < kind.len() {
                assert(pre[i] != 32);
            }
            assert(i == kind.len());
        },
        None => {
            assert(pre[kind.len() as int] != 32);
        },
    }
    assert(pre.subrange(0, kind.len() as int) =~= kind);
    assert(pre.subrange(kind.len() + 1 as int, pre.len() as int) =~= digits);
    assert(d.subrange(nul + 1 as int, d.len() as int) =~= payload);
}

/// The bytes of the kind word `commit`.
pub open spec fn kind_commit_bytes() -> Seq<u8> {
    seq![99u8, 111u8, 109u8, 109u8, 105u8, 116u8]
}

/// The bytes of the kind word `tree`.
pub open spec fn kind_tree_bytes() -> Seq<u8> {
    seq![116u8, 114u8, 101u8, 101u8]
}

/// The bytes of the kind word `blob`.
pub open spec fn kind_blob_bytes() -> Seq<u8> {
    seq![98u8, 108u8, 111u8, 98u8]
}

/// The bytes of the kind word `tag`.
pub open spec fn kind_tag_bytes() -> Seq<u8> {
    seq![116u8, 97u8, 103u8]
}

/// Compares two byte slices for equality.
pub fn bytes_eq(a: &[u8], b: &[u8]) -> (r: bool)
    ensures
        r == (a@ == b@),
{
    if a.len() != b.len() {
        proof {
            assert(a@ != b@);
        }
        return false;
    }
    let n = a.len();
    let mut i: usize = 0;
    while i < n
        invariant
            i <= n == a@.len() == b@.len(),
            forall|j: int| 0 <= j < i ==> a@[j] == b@[j],
        decreases n - i,
    {
        if a[i] != b[i] {
            proof {
                assert(a@ != b@);
            }
            return false;
        }
        i = i + 1;
    }
    proof {
        assert(a@ =~= b@);
    }
    true
}

/// The header grammar on characters, as [`get_type_size_and_data`]
/// applies it to an already decoded string.
pub open spec fn parse_header_chars(s: Seq<char>) -> Option<(Seq<char>, int, Seq<char>)> {
    match index_of_char(s, '\0', 0) {
        None => None,
        Some(nul) => {
            let pre = s.subrange(0, nul);
            let payload = s.subrange(nul + 1, s.len() as int);
            match index_of_char(pre, ' ', 0) {
                None => None,
                Some(sp) => {
                    let kind = pre.subrange(0, sp);
                    let digits = pre.subrange(sp + 1, pre.len() as int);
                    if digits.len() > 0 && all_dec_digits(digits) && digits_val(digits)
                        <= i32::MAX {
                        Some((kind, digits_val(digits), payload))
                    } else {
                        None
                    }
                },
            }
        },
    }
}

/// Splits `"<kind> <size>\0<payload>"` into the kind word, the
/// declared size, and the payload re-encoded as UTF-8 bytes.
pub fn get_type_size_and_data(in_str: &str) -> (r: Result<(String, i32, Vec<u8>), GitError>)
    ensures
        match r {
            Ok(t) => match parse_header_chars(in_str@) {
                Some(h) => {
                    &&& t.0@ == h.0
                    &&& t.1 == h.1
                    &&& t.2@ == vstd::utf8::encode_utf8(h.2)
                },
                None => false,
            },
            Err(e) => {
                &&& parse_header_chars(in_str@) is None
                &&& e == GitError::MalformedHeader
            },
        },
{
    let ghost s = in_str@;
    let chars = str_to_chars(in_str);
    let nul = match find_char(chars.as_slice(), '\0', 0) {
        Some(i) => i,
        None => { return Err(GitError::MalformedHeader) },
    };
    proof {
        lemma_index_of_char(s, '\0', 0);
    }
    let ghost pre = s.subrange(0, nul as int);
    let sp = match find_char(chars.as_slice(), ' ', 0) {
        Some(i) => i,
        None => {
            proof {
                lemma_index_of_char(s, ' ', 0);
                lemma_index_of_char(pre, ' ', 0);
                if index_of_char(pre, ' ', 0) is Some {
                    let i = index_of_char(pre, ' ', 0)->Some_0;
                    assert(s[i] == ' ');
                }
            }
            return Err(GitError::MalformedHeader)
        },
    };
    proof {
        lemma_index_of_char(s, ' ', 0);
    }
    if sp > nul {
        proof {
            lemma_index_of_char(pre, ' ', 0);
            if index_of_char(pre, ' ', 0) is Some {
                let i = index_of_char(pre, ' ', 0)->Some_0;
                assert(s[i] == ' ');
            }
        }
        return Err(GitError::MalformedHeader);
    }
    proof {
        assert(s[nul as int] == '\0');
        assert(sp != nul);
        lemma_index_of_char(pre, ' ', 0);
        match index_of_char(pre, ' ', 0) {
            Some(i) => {
                assert(s[i] == ' ');
                assert(pre[sp as int] == ' ');
            },
            None => {
                assert(pre[sp as int] == ' ');
            },
        }
        assert(index_of_char(pre, ' ', 0) == Some(sp as int));
        assert(pre.subrange(sp + 1, pre.len() as int) =~= s.subrange(sp + 1, nul as int));
    }
    let size_u64 = match parse_u64_digits(chars.as_slice(), sp + 1, nul) {
        Some(v) => v,
        None => { return Err(GitError::MalformedHeader) },
    };
    if size_u64 > i32::MAX as u64 {
        return Err(GitError::MalformedHeader);
    }
    let size = size_u64 as i32;
    let kind = crate::text::chars_to_string(chars.as_slice(), 0, sp);
    let n = chars.len();
    proof {
        assert(s.len() == n);
    }
    let payload = utf8_encode_chars(chars.as_slice(), nul + 1, n);
    proof {
        assert(pre.subrange(0, sp as int) =~= s.subrange(0, sp as int));
        assert(s.subrange(nul + 1, s.len() as int) == parse_header_chars(s)->Some_0.2);
    }
    Ok((kind, size, payload))
}

} // verus!

use crate::objects::blob::BlobObject;
use crate::objects::commit::CommitObject;
use crate::objects::tree::TreeObject;

verus! {

/// A typed database object, dispatched on the header's kind word.
#[derive(Debug)]
pub enum GitObjectType {
    /// A parsed commit.
    Commit(CommitObject),
    /// A parsed tree.
    Tree(TreeObject),
    /// A parsed blob.
    Blob(BlobObject),
    /// A tag object; recognized but not parsed further.
    Tag,
    /// Any other kind word; recognized but not parsed.
    NotImplemented,
}

/// A raw object from the database: its id and its zlib-compressed
/// bytes, exactly as stored.
#[derive(Debug, Clone)]
pub struct GitObject {
    /// The 40-character hex id the object was loaded under.
    pub oid: String,
    /// The compressed on-disk bytes.
    pub data: Vec<u8>,
}

impl GitObject {
    /// Wraps an id and compressed bytes.
    pub fn new(oid: String, data: Vec<u8>) -> (r: Self)
        ensures
            r.oid == oid,
            r.data == data,
    {
        GitObject { oid, data }
    }

    /// Decompresses the stored bytes.  Repeated calls return the same
    /// bytes; the object itself never changes.
    pub fn get_data(&self) -> (r: Result<Vec<u8>, GitError>)
        ensures
            match r {
                Ok(v) => inflate_zlib_of(self.data@) == Some(v@),
                Err(e) => {
                    &&& inflate_zlib_of(self.data@) is None
                    &&& e == GitError::CorruptObject
                },
            },
    {
        zlib_decompress(&self.data)
    }

    /// The decompressed bytes decoded as text, with invalid UTF-8
    /// replaced.
    pub fn get_data_as_string(&self) -> (r: Result<String, GitError>)
        ensures
            match r {
                Ok(s) => match inflate_zlib_of(self.data@) {
                    Some(d) => {
                        &&& s@ == lossy_utf8_of(d)
                        &&& vstd::utf8::valid_utf8(d) ==> s@ == vstd::utf8::decode_utf8(d)
                    },
                    None => false,
                },
                Err(e) => {
                    &&& inflate_zlib_of(self.data@) is None
                    &&& e == GitError::CorruptObject
                },
            },
    {
        let data = match self.get_data() {
            Ok(v) => v,
            Err(e) => { return Err(e) },
        };
        Ok(bytes_to_string_lossy(&data))
    }

    /// Decompresses, splits the header and dispatches to the typed
    /// parser the kind word selects.  Kind `tag` and unknown kind
    /// words are recognized without being parsed further.
    pub fn initialize_from_data(&self) -> (r: Result<GitObjectType, GitError>)
        ensures
            match r {
                Ok(t) => match inflate_zlib_of(self.data@) {
                    Some(d) => match parse_header_spec(d) {
                        Some(h) => {
                            &&& (t is Commit <==> h.0 == kind_commit_bytes())
                            &&& (t is Tree <==> h.0 == kind_tree_bytes())
                            &&& (t is Blob <==> h.0 == kind_blob_bytes())
                            &&& (t is Tag <==> h.0 == kind_tag_bytes())
                            &&& match t {
                                GitObjectType::Commit(c) => crate::objects::commit::commit_matches(
                                    c,
                                    lossy_utf8_of(h.2),
                                    h.1,
                                    self.oid@,
                                ),
                                GitObjectType::Tree(tr) => {
                                    &&& tr.size == h.1
                                    &&& tr.oid@ == self.oid@
                                    &&& match crate::objects::tree::tree_items_spec(h.2, 0) {
                                        Some(ms) => {
                                            &&& tr.items@.len() == ms.len()
                                            &&& forall|i: int|
                                                0 <= i < ms.len()
                                                    ==> crate::objects::tree::item_matches(
                                                    #[trigger] tr.items@[i],
                                                    ms[i],
                                                )
                                        },
                                        None => false,
                                    }
                                },
                                GitObjectType::Blob(b) => {
                                    &&& b.data@ == h.2
                                    &&& b.size == h.1
                                    &&& b.oid@ == self.oid@
                                },
                                GitObjectType::Tag => true,
                                GitObjectType::NotImplemented => true,
                            }
                        },
                        None => false,
                    },
                    None => false,
                },
                Err(e) => {
                    &&& (e == GitError::CorruptObject <==> inflate_zlib_of(self.data@) is None)
                    &&& (e == GitError::MalformedHeader <==> (inflate_zlib_of(self.data@)
                        matches Some(d) && parse_header_spec(d) is None))
                    &&& (e == GitError::MalformedTree <==> (inflate_zlib_of(self.data@)
                        matches Some(d) && parse_header_spec(d) matches Some(h) && h.0
                        == kind_tree_bytes() && crate::objects::tree::tree_items_spec(h.2, 0)
                        is None))
                    &&& (e == GitError::MalformedCommit <==> (inflate_zlib_of(self.data@)
                        matches Some(d) && parse_header_spec(d) matches Some(h) && h.0
                        == kind_commit_bytes() && crate::objects::commit::commit_lines_spec(
                        lossy_utf8_of(h.2),
                    ) is None))
                    &&& (e == GitError::MalformedAuthorLine <==> (inflate_zlib_of(self.data@)
                        matches Some(d) && parse_header_spec(d) matches Some(h) && h.0
                        == kind_commit_bytes() && crate::objects::commit::author_line_failure(
                        lossy_utf8_of(h.2),
                    )))
                    &&& (e == GitError::CorruptObject || e == GitError::MalformedHeader || e
                        == GitError::MalformedTree || e == GitError::MalformedCommit || e
                        == GitError::MalformedAuthorLine)
                },
            },
    {
        let data = match self.get_data() {
            Ok(v) => v,
            Err(_) => { return Err(GitError::CorruptObject) },
        };
        let (kind, size, payload) = match parse_header(data.as_slice()) {
            Ok(t) => t,
            Err(_) => { return Err(GitError::MalformedHeader) },
        };
        let commit_word: [u8; 6] = [99u8, 111u8, 109u8, 109u8, 105u8, 116u8];
        let tree_word: [u8; 4] = [116u8, 114u8, 101u8, 101u8];
        let blob_word: [u8; 4] = [98u8, 108u8, 111u8, 98u8];
        let tag_word: [u8; 3] = [116u8, 97u8, 103u8];
        proof {
            assert(commit_word@ =~= kind_commit_bytes());
            assert(tree_word@ =~= kind_tree_bytes());
            assert(blob_word@ =~= kind_blob_bytes());
            assert(tag_word@ =~= kind_tag_bytes());
        }
        let oid = crate::objects::blob::clone_string(&self.oid);
        if bytes_eq(kind.as_slice(), commit_word.as_slice()) {
            let text = bytes_to_string_lossy(&payload);
            let c = match CommitObject::from_str(text.as_str(), size, oid) {
                Ok(c) => c,
                Err(e) => { return Err(e) },
            };
            Ok(GitObjectType::Commit(c))
        } else if bytes_eq(kind.as_slice(), tree_word.as_slice()) {
            let items = match crate::objects::tree::parse_tree_items(payload.as_slice()) {
                Ok(v) => v,
                Err(_) => { return Err(GitError::MalformedTree) },
            };
            Ok(GitObjectType::Tree(TreeObject::new(items, size, oid)))
        } else if bytes_eq(kind.as_slice(), blob_word.as_slice()) {
            Ok(GitObjectType::Blob(BlobObject::new(payload, size, oid)))
        } else if bytes_eq(kind.as_slice(), tag_word.as_slice()) {
            Ok(GitObjectType::Tag)
        } else {
            Ok(GitObjectType::NotImplemented)
        }
    }

    /// The SHA-1 digest of the decompressed bytes, in hex.
    pub fn get_hash(&self) -> (r: Result<String, GitError>)
        ensures
            match r {
                Ok(h) => match inflate_zlib_of(self.data@) {
                    Some(d) => h@ == hex_of(sha1_of(d)) && h@.len() == 40,
                    None => false,
                },
                Err(e) => {
                    &&& inflate_zlib_of(self.data@) is None
                    &&& e == GitError::CorruptObject
                },
            },
    {
        let data = match self.get_data() {
            Ok(v) => v,
            Err(e) => { return Err(e) },
        };
        Ok(sha1_hex(&data))
    }
}

} // verus!

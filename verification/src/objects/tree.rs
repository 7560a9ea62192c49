//! Tree objects: the binary record grammar
//! `<mode-digits> ' ' <filename-bytes> '\0' <20 oid bytes>`, records
//! packed back to back with no separator.

use vstd::prelude::*;

use crate::errors::GitError;
use crate::objects::{
    bytes_eq, inflate_zlib_of, kind_tree_bytes, lossy_utf8_of, parse_header, parse_header_spec,
    GitObject,
};
use crate::text::{
    all_digit_bytes, bytes_range, digit_bytes_val, find_byte, hex_of, index_of_byte,
    lemma_digit_bytes_val_bound, lemma_index_of_byte, parse_i32_digit_bytes, pow10,
    to_hex_string,
};

verus! {

/// An entry of a tree: a mode, a path segment and the id of the
/// object it names.
#[derive(Debug, Clone)]
pub struct TreeItem {
    /// The file mode's digit string read as a decimal number, such as
    /// 100644 for a regular file or 40000 for a directory.
    pub mode: i32,
    /// The path segment, decoded from the record's bytes.
    pub filename: String,
    /// The 40-character hex id of the entry's object.
    pub oid: String,
}

impl TreeItem {
    /// Wraps a mode, a file name and an object id.
    pub fn new(mode: i32, filename: String, oid: String) -> (r: Self)
        ensures
            r.mode == mode,
            r.filename == filename,
            r.oid == oid,
    {
        TreeItem { mode, filename, oid }
    }
}

/// A tree: its entries in on-disk order.
#[derive(Debug, Clone)]
pub struct TreeObject {
    /// The entries, in the order the records appear in the payload.
    pub items: Vec<TreeItem>,
    /// The size the object header declared.
    pub size: i32,
    /// The hex object id this tree was loaded under.
    pub oid: String,
}

/// One record of a tree payload starting at `pos`: five or six mode
/// digits, a space, a nonempty NUL-terminated file name, and twenty
/// raw object-id bytes.  Yields the mode value, the name bytes, the
/// id bytes and the position just past the record.
pub open spec fn tree_record_at(p: Seq<u8>, pos: int) -> Option<(int, Seq<u8>, Seq<u8>, int)> {
    match index_of_byte(p, 32, pos) {
        None => None,
        Some(sp) => {
            let mode = p.subrange(pos, sp);
            if !(5 <= mode.len() <= 6 && all_digit_bytes(mode)) {
                None
            } else {
                match index_of_byte(p, 0, sp + 1) {
                    None => None,
                    Some(nul) => {
                        if nul == sp + 1 || nul + 21 > p.len() {
                            None
                        } else {
                            Some(
                                (
                                    digit_bytes_val(mode),
                                    p.subrange(sp + 1, nul),
                                    p.subrange(nul + 1, nul + 21),
                                    nul + 21,
                                ),
                            )
                        }
                    },
                }
            }
        },
    }
}

/// A whole tree payload from `pos` on, partitioned into records.
/// An empty payload is a valid empty tree; a remainder that is not a
/// whole record is nothing.
pub open spec fn tree_items_spec(p: Seq<u8>, pos: int) -> Option<Seq<(int, Seq<u8>, Seq<u8>)>>
    decreases p.len() - pos,
    via tree_items_spec_decreases
{
    if pos == p.len() {
        Some(Seq::empty())
    } else if pos < 0 || pos > p.len() {
        None
    } else {
        match tree_record_at(p, pos) {
            None => None,
            Some(r) => match tree_items_spec(p, r.3) {
                None => None,
                Some(rest) => Some(seq![(r.0, r.1, r.2)] + rest),
            },
        }
    }
}

#[via_fn]
proof fn tree_items_spec_decreases(p: Seq<u8>, pos: int) {
    if 0 <= pos < p.len() {
        lemma_index_of_byte(p, 32, pos);
        match index_of_byte(p, 32, pos) {
            Some(sp) => {
                lemma_index_of_byte(p, 0, sp + 1);
            },
            None => {},
        }
    }
}

/// Whether an executable entry carries what a parsed record says: the
/// mode value itself, the name decoded from its bytes, and the id in
/// hexadecimal.
pub open spec fn item_matches(it: TreeItem, m: (int, Seq<u8>, Seq<u8>)) -> bool {
    &&& it.mode == m.0
    &&& it.filename@ == lossy_utf8_of(m.1)
    &&& it.oid@ == hex_of(m.2)
}

impl TreeObject {
    /// Wraps a list of entries with their declared size and object id.
    pub fn new(items: Vec<TreeItem>, size: i32, oid: String) -> (r: Self)
        ensures
            r.items == items,
            r.size == size,
            r.oid == oid,
    {
        TreeObject { items, size, oid }
    }

    /// Parses a raw object as a tree: the declared kind must be
    /// `tree`, and the payload must partition into whole records.
    pub fn from_git_object(git_object: &GitObject) -> (r: Result<Box<Self>, GitError>)
        ensures
            match r {
                Ok(t) => match inflate_zlib_of(git_object.data@) {
                    Some(d) => match parse_header_spec(d) {
                        Some(h) => {
                            &&& h.0 == kind_tree_bytes()
                            &&& match tree_items_spec(h.2, 0) {
                                Some(ms) => {
                                    &&& t.items@.len() == ms.len()
                                    &&& forall|i: int|
                                        0 <= i < ms.len() ==> item_matches(
                                            #[trigger] t.items@[i],
                                            ms[i],
                                        )
                                },
                                None => false,
                            }
                            &&& t.size == h.1
                            &&& t.oid@ == git_object.oid@
                        },
                        None => false,
                    },
                    None => false,
                },
                Err(e) => {
                    &&& (e == GitError::CorruptObject <==> inflate_zlib_of(git_object.data@)
                        is None)
                    &&& (e == GitError::MalformedHeader <==> (inflate_zlib_of(git_object.data@)
                        matches Some(d) && parse_header_spec(d) is None))
                    &&& (e == GitError::KindMismatch <==> (inflate_zlib_of(git_object.data@)
                        matches Some(d) && parse_header_spec(d) matches Some(h) && h.0
                        != kind_tree_bytes()))
                    &&& (e == GitError::MalformedTree <==> (inflate_zlib_of(git_object.data@)
                        matches Some(d) && parse_header_spec(d) matches Some(h) && h.0
                        == kind_tree_bytes() && tree_items_spec(h.2, 0) is None))
                    &&& (e == GitError::CorruptObject || e == GitError::MalformedHeader || e
                        == GitError::KindMismatch || e == GitError::MalformedTree)
                },
            },
    {
        let data = match git_object.get_data() {
            Ok(v) => v,
            Err(_) => { return Err(GitError::CorruptObject) },
        };
        let (kind, size, payload) = match parse_header(data.as_slice()) {
            Ok(t) => t,
            Err(_) => { return Err(GitError::MalformedHeader) },
        };
        let tree_word: [u8; 4] = [116u8, 114u8, 101u8, 101u8];
        proof {
            assert(tree_word@ =~= kind_tree_bytes());
        }
        if !bytes_eq(kind.as_slice(), tree_word.as_slice()) {
            return Err(GitError::KindMismatch);
        }
        let items = match parse_tree_items(payload.as_slice()) {
            Ok(v) => v,
            Err(e) => { return Err(GitError::MalformedTree) },
        };
        let oid = crate::objects::blob::clone_string(&git_object.oid);
        Ok(Box::new(TreeObject::new(items, size, oid)))
    }
}

/// Partitions a tree payload into its entries, exactly as
/// [`tree_items_spec`] describes.
pub fn parse_tree_items(p: &[u8]) -> (r: Result<Vec<TreeItem>, GitError>)
    ensures
        match r {
            Ok(items) => match tree_items_spec(p@, 0) {
                Some(ms) => {
                    &&& items@.len() == ms.len()
                    &&& forall|i: int|
                        0 <= i < ms.len() ==> item_matches(#[trigger] items@[i], ms[i])
                },
                None => false,
            },
            Err(e) => {
                &&& tree_items_spec(p@, 0) is None
                &&& e == GitError::MalformedTree
            },
        },
{
    let ghost pp = p@;
    let n = p.len();
    let mut items: Vec<TreeItem> = Vec::new();
    let mut pos: usize = 0;
    while pos < n
        invariant
            n == pp.len(),
            pp == p@,
            pos <= n,
            items@.len() <= pos,
            (tree_items_spec(pp, 0) is Some <==> tree_items_spec(pp, pos as int) is Some),
            match tree_items_spec(pp, 0) {
                Some(all) => {
                    let rest = tree_items_spec(pp, pos as int)->Some_0;
                    &&& all.len() == items@.len() + rest.len()
                    &&& (forall|i: int|
                        0 <= i < items@.len() ==> item_matches(#[trigger] items@[i], all[i]))
                    &&& (forall|j: int|
                        0 <= j < rest.len() ==> all[items@.len() + j] == #[trigger] rest[j])
                },
                None => true,
            },
        decreases n - pos,
    {
        proof {
            lemma_index_of_byte(pp, 32, pos as int);
        }
        let sp = match find_byte(p, 32, pos) {
            Some(i) => i,
            None => { return Err(GitError::MalformedTree) },
        };
        let mode_len = sp - pos;
        if !(5 <= mode_len && mode_len <= 6) {
            return Err(GitError::MalformedTree);
        }
        let mode = match parse_i32_digit_bytes(p, pos, sp) {
            Some(v) => v,
            None => {
                proof {
                    let ghost m = pp.subrange(pos as int, sp as int);
                    if all_digit_bytes(m) {
                        lemma_digit_bytes_val_bound(m);
                        assert(pow10(0) == 1);
                        assert(pow10(1) == 10);
                        assert(pow10(2) == 100);
                        assert(pow10(3) == 1000);
                        assert(pow10(4) == 10000);
                        assert(pow10(5) == 100000);
                        assert(pow10(6) == 1000000);
                    }
                }
                return Err(GitError::MalformedTree)
            },
        };
        proof {
            lemma_index_of_byte(pp, 0, sp + 1);
        }
        let nul = match find_byte(p, 0, sp + 1) {
            Some(i) => i,
            None => { return Err(GitError::MalformedTree) },
        };
        if nul == sp + 1 || n - nul < 21 {
            return Err(GitError::MalformedTree);
        }
        let name_bytes = bytes_range(p, sp + 1, nul);
        let oid_bytes = bytes_range(p, nul + 1, nul + 21);
        let filename = crate::objects::bytes_to_string_lossy(&name_bytes);
        let oid = to_hex_string(oid_bytes.as_slice());
        let ghost items_pre = items@;
        items.push(TreeItem::new(mode, filename, oid));
        let ghost old_pos = pos as int;
        pos = nul + 21;
        proof {
            let rec = tree_record_at(pp, old_pos)->Some_0;
            assert(items@ =~= items_pre.push(items@[items_pre.len() as int]));
            if tree_items_spec(pp, 0) is Some {
                let all = tree_items_spec(pp, 0)->Some_0;
                let rest_pre = tree_items_spec(pp, old_pos)->Some_0;
                let rest = tree_items_spec(pp, pos as int)->Some_0;
                assert(rest_pre == seq![(rec.0, rec.1, rec.2)] + rest);
                assert(rest_pre[0] == (rec.0, rec.1, rec.2));
                assert(all[items_pre.len() as int] == rest_pre[0]);
                assert(item_matches(items@[items_pre.len() as int], all[items_pre.len() as int]));
                assert forall|j: int| 0 <= j < rest.len() implies all[items@.len() + j]
                    == #[trigger] rest[j] by {
                    assert(rest[j] == rest_pre[j + 1]);
                }
            }
        }
    }
    proof {
        assert(tree_items_spec(pp, pos as int) == Some(Seq::<(int, Seq<u8>, Seq<u8>)>::empty()));
    }
    Ok(items)
}

/// The sixteen bytes of `"100644 file.txt\0"`: a regular-file record
/// head before the twenty id bytes.
pub open spec fn regular_file_record_head() -> Seq<u8> {
    seq![
        49u8, 48u8, 48u8, 54u8, 52u8, 52u8, 32u8, 102u8, 105u8, 108u8, 101u8, 46u8, 116u8,
        120u8, 116u8, 0u8,
    ]
}

/// A payload of one regular-file record head followed by twenty
/// arbitrary id bytes parses to exactly one record: mode 100644, the
/// file name `file.txt`, and those twenty bytes as the id.
pub proof fn lemma_single_record_parse(oid_bytes: Seq<u8>)
    requires
        oid_bytes.len() == 20,
    ensures
        tree_items_spec(regular_file_record_head() + oid_bytes, 0) matches Some(ms) && ms
            == seq![
            (100644int, regular_file_record_head().subrange(7, 15), oid_bytes),
        ],
{
    let p = regular_file_record_head() + oid_bytes;
    assert(p.len() == 36);
    lemma_index_of_byte(p, 32, 0);
    assert(p[6] == 32);
    match index_of_byte(p, 32, 0) {
        Some(sp) => {
            assert(sp <= 6);
            if sp < 6 {
                assert(p[sp] == regular_file_record_head()[sp]);
            }
            assert(sp == 6);
        },
        None => {
            assert(p[6] != 32);
        },
    }
    let mode = p.subrange(0, 6);
    assert(mode =~= seq![49u8, 48u8, 48u8, 54u8, 52u8, 52u8]);
    assert(all_digit_bytes(mode)) by {
        assert forall|i: int| 0 <= i < 6 implies crate::text::is_digit_byte(
            #[trigger] mode[i],
        ) by {
        }
    }
    assert(digit_bytes_val(mode) == 100644) by {
        let m5 = mode.drop_last();
        let m4 = m5.drop_last();
        let m3 = m4.drop_last();
        let m2 = m3.drop_last();
        let m1 = m2.drop_last();
        let m0 = m1.drop_last();
        assert(m5 =~= seq![49u8, 48u8, 48u8, 54u8, 52u8]);
        assert(m4 =~= seq![49u8, 48u8, 48u8, 54u8]);
        assert(m3 =~= seq![49u8, 48u8, 48u8]);
        assert(m2 =~= seq![49u8, 48u8]);
        assert(m1 =~= seq![49u8]);
        assert(m0 =~= Seq::<u8>::empty());
        assert(digit_bytes_val(m0) == 0);
        assert(digit_bytes_val(m1) == 1);
        assert(digit_bytes_val(m2) == 10);
        assert(digit_bytes_val(m3) == 100);
        assert(digit_bytes_val(m4) == 1006);
        assert(digit_bytes_val(m5) == 10064);
    }
    lemma_index_of_byte(p, 0, 7);
    assert(p[15] == 0);
    match index_of_byte(p, 0, 7) {
        Some(nul) => {
            assert(nul <= 15);
            if nul < 15 {
                assert(p[nul] == regular_file_record_head()[nul]);
            }
            assert(nul == 15);
        },
        None => {
            assert(p[15] != 0);
        },
    }
    assert(p.subrange(7, 15) =~= regular_file_record_head().subrange(7, 15));
    assert(p.subrange(16, 36) =~= oid_bytes);
    assert(tree_record_at(p, 0) == Some(
        (100644int, regular_file_record_head().subrange(7, 15), oid_bytes, 36int),
    ));
    assert(tree_items_spec(p, 36) == Some(Seq::<(int, Seq<u8>, Seq<u8>)>::empty()));
    assert(tree_items_spec(p, 0) == Some(
        seq![(100644int, regular_file_record_head().subrange(7, 15), oid_bytes)]
            + Seq::<(int, Seq<u8>, Seq<u8>)>::empty(),
    ));
    assert(seq![(100644int, regular_file_record_head().subrange(7, 15), oid_bytes)]
        + Seq::<(int, Seq<u8>, Seq<u8>)>::empty() =~= seq![
        (100644int, regular_file_record_head().subrange(7, 15), oid_bytes),
    ]);
}

} // verus!

use crate::text::{
    all_dec_digits, digits_val, find_char, index_of_char, lemma_index_of_char, parse_u64_digits,
    str_to_chars, utf8_encode_chars,
};

verus! {

/// The grammar of [`get_number_filename_and_data`]: everything up to
/// the first NUL splits at the first space into a decimal number and
/// a file name; the data is everything after the NUL.
pub open spec fn number_filename_chars(s: Seq<char>) -> Option<(int, Seq<char>, Seq<char>)> {
    match index_of_char(s, '\0', 0) {
        None => None,
        Some(nul) => {
            let pre = s.subrange(0, nul);
            let payload = s.subrange(nul + 1, s.len() as int);
            match index_of_char(pre, ' ', 0) {
                None => None,
                Some(sp) => {
                    let digits = pre.subrange(0, sp);
                    let filename = pre.subrange(sp + 1, pre.len() as int);
                    if digits.len() > 0 && all_dec_digits(digits) && digits_val(digits)
                        <= i32::MAX {
                        Some((digits_val(digits), filename, payload))
                    } else {
                        None
                    }
                },
            }
        },
    }
}

/// Splits `"<number> <filename>\0<data>"` into the number, the file
/// name, and the data re-encoded as UTF-8 bytes.
pub fn get_number_filename_and_data(in_str: &str) -> (r: Result<(i32, String, Vec<u8>), GitError>)
    ensures
        match r {
            Ok(t) => match number_filename_chars(in_str@) {
                Some(h) => {
                    &&& t.0 == h.0
                    &&& t.1@ == h.1
                    &&& t.2@ == vstd::utf8::encode_utf8(h.2)
                },
                None => false,
            },
            Err(e) => {
                &&& number_filename_chars(in_str@) is None
                &&& e == GitError::MalformedTree
            },
        },
{
    let ghost s = in_str@;
    let chars = str_to_chars(in_str);
    let nul = match find_char(chars.as_slice(), '\0', 0) {
        Some(i) => i,
        None => { return Err(GitError::MalformedTree) },
    };
    proof {
        lemma_index_of_char(s, '\0', 0);
    }
    let ghost pre = s.subrange(0, nul as int);
    let sp = match find_char(chars.as_slice(), ' ', 0) {
        Some(i) => i,
        None => {
            proof {
                lemma_index_of_char(s, ' ', 0);
                lemma_index_of_char(pre, ' ', 0);
                if index_of_char(pre, ' ', 0) is Some {
                    let i = index_of_char(pre, ' ', 0)->Some_0;
                    assert(s[i] == ' ');
                }
            }
            return Err(GitError::MalformedTree)
        },
    };
    proof {
        lemma_index_of_char(s, ' ', 0);
    }
    if sp > nul {
        proof {
            lemma_index_of_char(pre, ' ', 0);
            if index_of_char(pre, ' ', 0) is Some {
                let i = index_of_char(pre, ' ', 0)->Some_0;
                assert(s[i] == ' ');
            }
        }
        return Err(GitError::MalformedTree);
    }
    proof {
        assert(s[nul as int] == '\0');
        assert(sp != nul);
        lemma_index_of_char(pre, ' ', 0);
        match index_of_char(pre, ' ', 0) {
            Some(i) => {
                assert(s[i] == ' ');
                assert(pre[sp as int] == ' ');
            },
            None => {
                assert(pre[sp as int] == ' ');
            },
        }
        assert(index_of_char(pre, ' ', 0) == Some(sp as int));
        assert(pre.subrange(0, sp as int) =~= s.subrange(0, sp as int));
    }
    let number_u64 = match parse_u64_digits(chars.as_slice(), 0, sp) {
        Some(v) => v,
        None => { return Err(GitError::MalformedTree) },
    };
    if number_u64 > i32::MAX as u64 {
        return Err(GitError::MalformedTree);
    }
    let number = number_u64 as i32;
    let filename = crate::text::chars_to_string(chars.as_slice(), sp + 1, nul);
    let n = chars.len();
    proof {
        assert(s.len() == n);
        assert(pre.subrange(sp + 1, pre.len() as int) =~= s.subrange(sp + 1, nul as int));
    }
    let data = utf8_encode_chars(chars.as_slice(), nul + 1, n);
    Ok((number, filename, data))
}

} // verus!

//! Commit objects: the fixed-order line grammar (`tree`, optional
//! `parent`, `author`, `committer`, a blank line, then the message)
//! and the author-line grammar `name [<email>] timestamp offset`.

use vstd::prelude::*;

use crate::errors::GitError;
use crate::text::{
    all_dec_digits, chars_to_string, digits_val, find_char, index_of_char, is_dec_digit,
    lemma_index_of_char, parse_u64_digits, str_to_chars,
};

verus! {

/// The author or committer of a commit.
#[derive(Debug, Clone)]
pub struct CommitAuthor {
    /// The display name; everything before the email or timestamp.
    pub name: String,
    /// The address between angle brackets, when one is present.
    pub email: Option<String>,
    /// Seconds since the epoch.
    pub timestamp: u64,
    /// The raw UTC offset: a sign and four digits, such as `-0130`.
    pub kind: String,
}

/// A commit: its tree, its first parent, who wrote and committed it,
/// and the message.
#[derive(Debug, Clone)]
pub struct CommitObject {
    /// The hex id of the commit's tree object.
    pub tree: String,
    /// The hex id of the first parent, absent for a root commit.
    pub parent: Option<String>,
    /// The author line.
    pub author: CommitAuthor,
    /// The committer line.
    pub committer: CommitAuthor,
    /// The size the object header declared.
    pub size: i32,
    /// The hex object id this commit was loaded under.
    pub oid: String,
    /// The free-form message after the blank line.
    pub message: String,
}

/// Whether `w` occurs in `s` starting at `pos`.
pub open spec fn starts_with_at(s: Seq<char>, w: Seq<char>, pos: int) -> bool {
    0 <= pos && pos + w.len() <= s.len() && s.subrange(pos, pos + w.len()) == w
}

/// Where the line starting at `pos` ends: the position of the next
/// newline, or the end of the text.
pub open spec fn line_end(s: Seq<char>, pos: int) -> int {
    match index_of_char(s, '\n', pos) {
        Some(e) => e,
        None => s.len() as int,
    }
}

/// The characters of `"tree "`.
pub open spec fn tree_line_prefix() -> Seq<char> {
    seq!['t', 'r', 'e', 'e', ' ']
}

/// The characters of `"parent "`.
pub open spec fn parent_line_prefix() -> Seq<char> {
    seq!['p', 'a', 'r', 'e', 'n', 't', ' ']
}

/// The characters of `"author "`.
pub open spec fn author_line_prefix() -> Seq<char> {
    seq!['a', 'u', 't', 'h', 'o', 'r', ' ']
}

/// The characters of `"committer "`.
pub open spec fn committer_line_prefix() -> Seq<char> {
    seq!['c', 'o', 'm', 'm', 'i', 't', 't', 'e', 'r', ' ']
}

/// Consumes the run of `parent ` lines starting at `pos`: the value
/// of the first one (later ones are ignored), and the position just
/// past the run.
pub open spec fn skip_parents(s: Seq<char>, pos: int) -> (Option<Seq<char>>, int)
    decreases s.len() - pos,
    via skip_parents_decreases
{
    if starts_with_at(s, parent_line_prefix(), pos) {
        let e = line_end(s, pos + 7);
        let p = s.subrange(pos + 7, e);
        if e >= s.len() {
            (Some(p), s.len() as int)
        } else {
            let rest = skip_parents(s, e + 1);
            (Some(p), rest.1)
        }
    } else {
        (None, pos)
    }
}

#[via_fn]
proof fn skip_parents_decreases(s: Seq<char>, pos: int) {
    if starts_with_at(s, parent_line_prefix(), pos) {
        lemma_index_of_char(s, '\n', pos + 7);
    }
}

/// The line structure of a commit payload: the tree id, the first
/// parent id, the raw author and committer lines, and the message
/// after the blank line.  Nothing if a mandatory part is missing.
pub open spec fn commit_lines_spec(s: Seq<char>) -> Option<
    (Seq<char>, Option<Seq<char>>, Seq<char>, Seq<char>, Seq<char>),
> {
    if !starts_with_at(s, tree_line_prefix(), 0) {
        None
    } else {
        let te = line_end(s, 5);
        let tree = s.subrange(5, te);
        if te >= s.len() {
            None
        } else {
            let parents = skip_parents(s, te + 1);
            let q = parents.1;
            if !starts_with_at(s, author_line_prefix(), q) {
                None
            } else {
                let ae = line_end(s, q + 7);
                let author_text = s.subrange(q + 7, ae);
                if ae >= s.len() || !starts_with_at(s, committer_line_prefix(), ae + 1) {
                    None
                } else {
                    let ce = line_end(s, ae + 1 + 10);
                    let committer_text = s.subrange(ae + 1 + 10, ce);
                    if ce >= s.len() || ce + 1 >= s.len() || s[ce + 1] != '\n' {
                        None
                    } else {
                        Some(
                            (
                                tree,
                                parents.0,
                                author_text,
                                committer_text,
                                s.subrange(ce + 2, s.len() as int),
                            ),
                        )
                    }
                }
            }
        }
    }
}

/// The position of the last occurrence of `c` before `upto`, if any.
pub open spec fn last_index_of_char(s: Seq<char>, c: char, upto: int) -> Option<int>
    decreases upto,
{
    if upto <= 0 || upto > s.len() {
        None
    } else if s[upto - 1] == c {
        Some(upto - 1)
    } else {
        last_index_of_char(s, c, upto - 1)
    }
}

/// What a successful or failed backwards search means.
pub proof fn lemma_last_index_of_char(s: Seq<char>, c: char, upto: int)
    requires
        0 <= upto <= s.len(),
    ensures
        match last_index_of_char(s, c, upto) {
            Some(i) => 0 <= i < upto && s[i] == c && forall|j: int|
                i < j < upto ==> s[j] != c,
            None => forall|j: int| 0 <= j < upto ==> s[j] != c,
        },
    decreases upto,
{
    if upto > 0 && s[upto - 1] != c {
        lemma_last_index_of_char(s, c, upto - 1);
    }
}

/// Whether five characters are a sign and four digits: the raw UTC
/// offset form.
pub open spec fn offset_text_ok(o: Seq<char>) -> bool {
    &&& o.len() == 5
    &&& (o[0] == '+' || o[0] == '-')
    &&& all_dec_digits(o.subrange(1, 5))
}

/// The author grammar, read from the right: the last space-separated
/// token is the signed four-digit offset, the one before it the
/// decimal timestamp; what remains is the name, optionally followed
/// by ` <email>`.
pub open spec fn author_parse_spec(a: Seq<char>) -> Option<
    (Seq<char>, Option<Seq<char>>, int, Seq<char>),
> {
    match last_index_of_char(a, ' ', a.len() as int) {
        None => None,
        Some(ls) => {
            let offset = a.subrange(ls + 1, a.len() as int);
            if !offset_text_ok(offset) {
                None
            } else {
                match last_index_of_char(a, ' ', ls) {
                    None => None,
                    Some(ls2) => {
                        let ts = a.subrange(ls2 + 1, ls);
                        if ts.len() == 0 || !all_dec_digits(ts) || digits_val(ts) > u64::MAX {
                            None
                        } else {
                            let who = a.subrange(0, ls2);
                            match index_of_char(who, '<', 0) {
                                None => {
                                    if who.len() >= 1 {
                                        Some((who, None, digits_val(ts), offset))
                                    } else {
                                        None
                                    }
                                },
                                Some(lt) => {
                                    if lt >= 2 && who[lt - 1] == ' ' && who.len() >= lt + 2
                                        && who.last() == '>' {
                                        Some(
                                            (
                                                who.subrange(0, lt - 1),
                                                Some(who.subrange(lt + 1, who.len() - 1)),
                                                digits_val(ts),
                                                offset,
                                            ),
                                        )
                                    } else {
                                        None
                                    }
                                },
                            }
                        }
                    },
                }
            }
        },
    }
}

/// Finds the last occurrence of `c` in `s[..upto]`.
pub fn find_char_rev(s: &[char], c: char, upto: usize) -> (r: Option<usize>)
    requires
        upto <= s@.len(),
    ensures
        match r {
            Some(i) => i < upto && last_index_of_char(s@, c, upto as int) == Some(i as int),
            None => last_index_of_char(s@, c, upto as int) is None,
        },
{
    let mut i: usize = upto;
    while i > 0
        invariant
            i <= upto <= s@.len(),
            last_index_of_char(s@, c, upto as int) == last_index_of_char(s@, c, i as int),
        decreases i,
    {
        if s[i - 1] == c {
            return Some(i - 1);
        }
        i = i - 1;
    }
    None
}

/// Whether `w` occurs in `s` starting at `pos`.
pub fn starts_with_chars(s: &[char], w: &[char], pos: usize) -> (r: bool)
    ensures
        r == starts_with_at(s@, w@, pos as int),
{
    let wn = w.len();
    let sn = s.len();
    if pos > sn || wn > sn - pos {
        proof {
            assert(!starts_with_at(s@, w@, pos as int));
        }
        return false;
    }
    let mut i: usize = 0;
    while i < wn
        invariant
            i <= wn,
            pos + wn <= sn == s@.len(),
            wn == w@.len(),
            forall|j: int| 0 <= j < i ==> s@[pos + j] == w@[j],
        decreases wn - i,
    {
        if s[pos + i] != w[i] {
            proof {
                assert(s@.subrange(pos as int, pos + wn as int)[i as int] == s@[pos + i]);
                assert(s@.subrange(pos as int, pos + wn as int) != w@);
            }
            return false;
        }
        i = i + 1;
    }
    proof {
        assert(s@.subrange(pos as int, pos + wn as int) =~= w@);
    }
    true
}

/// Where the line starting at `pos` ends.
pub fn line_end_from(s: &[char], pos: usize) -> (r: usize)
    requires
        pos <= s@.len(),
    ensures
        r == line_end(s@, pos as int),
        pos <= r <= s@.len(),
        r < s@.len() ==> s@[r as int] == '\n',
{
    proof {
        lemma_index_of_char(s@, '\n', pos as int);
    }
    match find_char(s, '\n', pos) {
        Some(e) => e,
        None => s.len(),
    }
}

/// Whether an executable author value carries what a parsed author
/// line says.
pub open spec fn author_matches(
    a: CommitAuthor,
    m: (Seq<char>, Option<Seq<char>>, int, Seq<char>),
) -> bool {
    &&& a.name@ == m.0
    &&& match (a.email, m.1) {
        (Some(e), Some(me)) => e@ == me,
        (None, None) => true,
        _ => false,
    }
    &&& a.timestamp == m.2
    &&& a.kind@ == m.3
}

/// Whether an executable commit value carries what a parsed commit
/// payload says, together with the declared size and object id it
/// was loaded under.
pub open spec fn commit_matches(c: CommitObject, s: Seq<char>, size: int, oid: Seq<char>) -> bool {
    match commit_lines_spec(s) {
        Some(l) => {
            &&& c.tree@ == l.0
            &&& match (c.parent, l.1) {
                (Some(p), Some(mp)) => p@ == mp,
                (None, None) => true,
                _ => false,
            }
            &&& author_parse_spec(l.2) is Some
            &&& author_parse_spec(l.3) is Some
            &&& author_matches(c.author, author_parse_spec(l.2)->Some_0)
            &&& author_matches(c.committer, author_parse_spec(l.3)->Some_0)
            &&& c.message@ == l.4
            &&& c.size == size
            &&& c.oid@ == oid
        },
        None => false,
    }
}

impl CommitAuthor {
    /// Parses one author or committer line, exactly as
    /// [`author_parse_spec`] describes.
    pub fn from_string(in_str: &str) -> (r: Result<Self, GitError>)
        ensures
            match r {
                Ok(a) => match author_parse_spec(in_str@) {
                    Some(m) => {
                        &&& a.name@ == m.0
                        &&& match (&a.email, m.1) {
                            (Some(e), Some(me)) => e@ == me,
                            (None, None) => true,
                            _ => false,
                        }
                        &&& a.timestamp == m.2
                        &&& a.kind@ == m.3
                    },
                    None => false,
                },
                Err(e) => {
                    &&& author_parse_spec(in_str@) is None
                    &&& e == GitError::MalformedAuthorLine
                },
            },
    {
        let ghost a = in_str@;
        let chars = str_to_chars(in_str);
        let n = chars.len();
        let ls = match find_char_rev(chars.as_slice(), ' ', n) {
            Some(i) => i,
            None => { return Err(GitError::MalformedAuthorLine) },
        };
        // The offset token: a sign and exactly four digits.
        if n - (ls + 1) != 5 {
            proof {
                assert(a.subrange(ls + 1, a.len() as int).len() != 5);
            }
            return Err(GitError::MalformedAuthorLine);
        }
        let sign = chars[ls + 1];
        if !(sign == '+' || sign == '-') {
            proof {
                assert(a.subrange(ls + 1, a.len() as int)[0] == sign);
            }
            return Err(GitError::MalformedAuthorLine);
        }
        let digits_ok = crate::text::all_digits_in_range(chars.as_slice(), ls + 2, n);
        proof {
            assert(a.subrange(ls + 2, a.len() as int) =~= a.subrange(ls + 1, a.len() as int)
                .subrange(1, 5));
        }
        if !digits_ok {
            return Err(GitError::MalformedAuthorLine);
        }
        let offset = chars_to_string(chars.as_slice(), ls + 1, n);
        let ls2 = match find_char_rev(chars.as_slice(), ' ', ls) {
            Some(i) => i,
            None => { return Err(GitError::MalformedAuthorLine) },
        };
        let timestamp = match parse_u64_digits(chars.as_slice(), ls2 + 1, ls) {
            Some(v) => v,
            None => { return Err(GitError::MalformedAuthorLine) },
        };
        let ghost who = a.subrange(0, ls2 as int);
        proof {
            lemma_index_of_char(who, '<', 0);
            lemma_index_of_char(a, '<', 0);
        }
        let lt_all = find_char(chars.as_slice(), '<', 0);
        let lt: usize;
        match lt_all {
            Some(i) => {
                if i < ls2 {
                    proof {
                        match index_of_char(who, '<', 0) {
                            Some(w) => {
                                assert(a[w] == '<');
                                assert(who[i as int] == '<');
                            },
                            None => {
                                assert(who[i as int] == '<');
                            },
                        }
                        assert(index_of_char(who, '<', 0) == Some(i as int));
                    }
                    lt = i;
                } else {
                    proof {
                        if index_of_char(who, '<', 0) is Some {
                            let w = index_of_char(who, '<', 0)->Some_0;
                            assert(a[w] == '<');
                        }
                    }
                    if ls2 < 1 {
                        return Err(GitError::MalformedAuthorLine);
                    }
                    let name = chars_to_string(chars.as_slice(), 0, ls2);
                    return Ok(
                        CommitAuthor { name, email: None, timestamp, kind: offset },
                    );
                }
            },
            None => {
                proof {
                    if index_of_char(who, '<', 0) is Some {
                        let w = index_of_char(who, '<', 0)->Some_0;
                        assert(a[w] == '<');
                    }
                }
                if ls2 < 1 {
                    return Err(GitError::MalformedAuthorLine);
                }
                let name = chars_to_string(chars.as_slice(), 0, ls2);
                return Ok(CommitAuthor { name, email: None, timestamp, kind: offset });
            },
        }
        // An angle bracket opens inside the name section: it must
        // close the section as ` <email>`.
        if !(lt >= 2 && ls2 >= lt + 2) {
            return Err(GitError::MalformedAuthorLine);
        }
        if chars[lt - 1] != ' ' || chars[ls2 - 1] != '>' {
            proof {
                assert(who[lt - 1] == a[lt - 1]);
                assert(who.last() == a[ls2 - 1]);
            }
            return Err(GitError::MalformedAuthorLine);
        }
        proof {
            assert(who[lt - 1] == a[lt - 1]);
            assert(who.last() == a[ls2 - 1]);
            assert(who.subrange(0, lt - 1) =~= a.subrange(0, lt - 1));
            assert(who.subrange(lt + 1, who.len() - 1) =~= a.subrange(lt + 1, ls2 - 1));
        }
        let name = chars_to_string(chars.as_slice(), 0, lt - 1);
        let email = chars_to_string(chars.as_slice(), lt + 1, ls2 - 1);
        Ok(CommitAuthor { name, email: Some(email), timestamp, kind: offset })
    }
}

impl CommitObject {
    /// Parses a commit payload against the fixed-order line grammar.
    /// The declared size and the object id are carried through.
    pub fn from_str(in_string: &str, size: i32, oid: String) -> (r: Result<Self, GitError>)
        ensures
            match r {
                Ok(c) => match commit_lines_spec(in_string@) {
                    Some(l) => {
                        &&& c.tree@ == l.0
                        &&& match (&c.parent, l.1) {
                            (Some(p), Some(mp)) => p@ == mp,
                            (None, None) => true,
                            _ => false,
                        }
                        &&& author_parse_spec(l.2) is Some
                        &&& author_parse_spec(l.3) is Some
                        &&& {
                            let am = author_parse_spec(l.2)->Some_0;
                            &&& c.author.name@ == am.0
                            &&& match (&c.author.email, am.1) {
                                (Some(e), Some(me)) => e@ == me,
                                (None, None) => true,
                                _ => false,
                            }
                            &&& c.author.timestamp == am.2
                            &&& c.author.kind@ == am.3
                        }
                        &&& {
                            let cm = author_parse_spec(l.3)->Some_0;
                            &&& c.committer.name@ == cm.0
                            &&& match (&c.committer.email, cm.1) {
                                (Some(e), Some(me)) => e@ == me,
                                (None, None) => true,
                                _ => false,
                            }
                            &&& c.committer.timestamp == cm.2
                            &&& c.committer.kind@ == cm.3
                        }
                        &&& c.message@ == l.4
                        &&& c.size == size
                        &&& c.oid == oid
                    },
                    None => false,
                },
                Err(e) => {
                    &&& (e == GitError::MalformedCommit <==> commit_lines_spec(in_string@)
                        is None)
                    &&& (e == GitError::MalformedAuthorLine <==> (commit_lines_spec(in_string@)
                        matches Some(l) && (author_parse_spec(l.2) is None || (author_parse_spec(
                        l.2,
                    ) is Some && author_parse_spec(l.3) is None))))
                    &&& (e == GitError::MalformedCommit || e == GitError::MalformedAuthorLine)
                },
            },
    {
        let ghost s = in_string@;
        let chars = str_to_chars(in_string);
        let n = chars.len();
        let tree_word: [char; 5] = ['t', 'r', 'e', 'e', ' '];
        let parent_word: [char; 7] = ['p', 'a', 'r', 'e', 'n', 't', ' '];
        let author_word: [char; 7] = ['a', 'u', 't', 'h', 'o', 'r', ' '];
        let committer_word: [char; 10] = ['c', 'o', 'm', 'm', 'i', 't', 't', 'e', 'r', ' '];
        proof {
            assert(tree_word@ =~= tree_line_prefix());
            assert(parent_word@ =~= parent_line_prefix());
            assert(author_word@ =~= author_line_prefix());
            assert(committer_word@ =~= committer_line_prefix());
        }
        if !starts_with_chars(chars.as_slice(), tree_word.as_slice(), 0) {
            return Err(GitError::MalformedCommit);
        }
        let te = line_end_from(chars.as_slice(), 5);
        let tree = chars_to_string(chars.as_slice(), 5, te);
        if te >= n {
            return Err(GitError::MalformedCommit);
        }
        // Consume the run of parent lines, keeping only the first.
        let mut pos: usize = te + 1;
        let mut parent: Option<String> = None;
        let ghost start = te + 1;
        while starts_with_chars(chars.as_slice(), parent_word.as_slice(), pos)
            invariant
                chars@ == s,
                n == s.len(),
                parent_word@ == parent_line_prefix(),
                author_word@ == author_line_prefix(),
                committer_word@ == committer_line_prefix(),
                start <= pos <= s.len(),
                skip_parents(s, start as int).1 == skip_parents(s, pos as int).1,
                skip_parents(s, start as int).0 == match parent {
                    Some(p) => Some(p@),
                    None => skip_parents(s, pos as int).0,
                },
                parent is Some ==> skip_parents(s, start as int).0 is Some,
            decreases s.len() - pos,
        {
            let ghost pos0 = pos as int;
            let e = line_end_from(chars.as_slice(), pos + 7);
            if parent.is_none() {
                parent = Some(chars_to_string(chars.as_slice(), pos + 7, e));
            }
            if e >= n {
                pos = n;
            } else {
                pos = e + 1;
            }
            proof {
                assert(parent_word@ =~= parent_line_prefix());
                let e_spec = line_end(s, pos0 + 7);
                assert(skip_parents(s, pos0).0 == Some(s.subrange(pos0 + 7, e_spec)));
                if e < n {
                    assert(skip_parents(s, pos0).1 == skip_parents(s, pos as int).1);
                } else {
                    assert(skip_parents(s, pos0).1 == s.len());
                    assert(!starts_with_at(s, parent_line_prefix(), pos as int));
                    assert(skip_parents(s, pos as int) == (None::<Seq<char>>, pos as int));
                }
            }
        }
        proof {
            assert(parent_word@ =~= parent_line_prefix());
            assert(author_word@ =~= author_line_prefix());
            assert(committer_word@ =~= committer_line_prefix());
            assert(skip_parents(s, pos as int).1 == pos as int);
        }
        let q = pos;
        if !starts_with_chars(chars.as_slice(), author_word.as_slice(), q) {
            return Err(GitError::MalformedCommit);
        }
        let ae = line_end_from(chars.as_slice(), q + 7);
        let author_string = chars_to_string(chars.as_slice(), q + 7, ae);
        if ae >= n {
            return Err(GitError::MalformedCommit);
        }
        if !starts_with_chars(chars.as_slice(), committer_word.as_slice(), ae + 1) {
            return Err(GitError::MalformedCommit);
        }
        let ce = line_end_from(chars.as_slice(), ae + 1 + 10);
        let committer_string = chars_to_string(chars.as_slice(), ae + 1 + 10, ce);
        if ce >= n || ce + 1 >= n {
            return Err(GitError::MalformedCommit);
        }
        if chars[ce + 1] != '\n' {
            return Err(GitError::MalformedCommit);
        }
        let message = chars_to_string(chars.as_slice(), ce + 2, n);
        let author = match CommitAuthor::from_string(author_string.as_str()) {
            Ok(a) => a,
            Err(_) => { return Err(GitError::MalformedAuthorLine) },
        };
        let committer = match CommitAuthor::from_string(committer_string.as_str()) {
            Ok(a) => a,
            Err(_) => { return Err(GitError::MalformedAuthorLine) },
        };
        Ok(CommitObject { tree, parent, author, committer, size, oid, message })
    }
}

} // verus!

use crate::objects::{
    bytes_eq, bytes_to_string_lossy, inflate_zlib_of, kind_commit_bytes, lossy_utf8_of,
    parse_header, parse_header_spec, GitObject,
};

verus! {

/// Whether a commit payload has sound line structure but an author
/// or committer line that the author grammar refuses.
pub open spec fn author_line_failure(s: Seq<char>) -> bool {
    match commit_lines_spec(s) {
        Some(l) => author_parse_spec(l.2) is None || author_parse_spec(l.3) is None,
        None => false,
    }
}

impl CommitObject {
    /// Parses a raw object as a commit: the declared kind must be
    /// `commit`; the payload is decoded as text and run through the
    /// commit grammar.
    pub fn from_git_object(git_object: &GitObject) -> (r: Result<Box<Self>, GitError>)
        ensures
            match r {
                Ok(c) => match inflate_zlib_of(git_object.data@) {
                    Some(d) => match parse_header_spec(d) {
                        Some(h) => {
                            &&& h.0 == kind_commit_bytes()
                            &&& commit_matches(*c, lossy_utf8_of(h.2), h.1, git_object.oid@)
                        },
                        None => false,
                    },
                    None => false,
                },
                Err(e) => {
                    &&& (e == GitError::CorruptObject <==> inflate_zlib_of(git_object.data@)
                        is None)
                    &&& (e == GitError::MalformedHeader <==> (inflate_zlib_of(git_object.data@)
                        matches Some(d) && parse_header_spec(d) is None))
                    &&& (e == GitError::KindMismatch <==> (inflate_zlib_of(git_object.data@)
                        matches Some(d) && parse_header_spec(d) matches Some(h) && h.0
                        != kind_commit_bytes()))
                    &&& (e == GitError::MalformedCommit <==> (inflate_zlib_of(git_object.data@)
                        matches Some(d) && parse_header_spec(d) matches Some(h) && h.0
                        == kind_commit_bytes() && commit_lines_spec(lossy_utf8_of(h.2)) is None))
                    &&& (e == GitError::MalformedAuthorLine <==> (inflate_zlib_of(
                        git_object.data@,
                    ) matches Some(d) && parse_header_spec(d) matches Some(h) && h.0
                        == kind_commit_bytes() && author_line_failure(lossy_utf8_of(h.2))))
                    &&& (e == GitError::CorruptObject || e == GitError::MalformedHeader || e
                        == GitError::KindMismatch || e == GitError::MalformedCommit || e
                        == GitError::MalformedAuthorLine)
                },
            },
    {
        let data = match git_object.get_data() {
            Ok(v) => v,
            Err(_) => { return Err(GitError::CorruptObject) },
        };
        let (kind, size, payload) = match parse_header(data.as_slice()) {
            Ok(t) => t,
            Err(_) => { return Err(GitError::MalformedHeader) },
        };
        let commit_word: [u8; 6] = [99u8, 111u8, 109u8, 109u8, 105u8, 116u8];
        proof {
            assert(commit_word@ =~= kind_commit_bytes());
        }
        if !bytes_eq(kind.as_slice(), commit_word.as_slice()) {
            return Err(GitError::KindMismatch);
        }
        let text = bytes_to_string_lossy(&payload);
        let oid = crate::objects::blob::clone_string(&git_object.oid);
        let commit_object = match CommitObject::from_str(text.as_str(), size, oid) {
            Ok(c) => c,
            Err(e) => { return Err(e) },
        };
        Ok(Box::new(commit_object))
    }
}

} // verus!

verus! {

/// The serialized form of an author model: the name, the optional
/// `<email>` in angle brackets, the decimal timestamp, and the signed
/// offset, separated by single spaces.
pub open spec fn serialize_author(m: (Seq<char>, Option<Seq<char>>, int, Seq<char>)) -> Seq<
    char,
> {
    m.0 + seq![' '] + (match m.1 {
        Some(e) => seq!['<'] + e + seq!['>', ' '],
        None => Seq::<char>::empty(),
    }) + crate::text::dec_str_of(m.2) + seq![' '] + m.3
}

/// An author model the grammar can carry: a nonempty name free of
/// newlines and angle-bracket openers, a nonempty email free of
/// newlines when present, a timestamp in the unsigned 64-bit range,
/// and a signed four-digit offset.
pub open spec fn author_valid(m: (Seq<char>, Option<Seq<char>>, int, Seq<char>)) -> bool {
    &&& m.0.len() >= 1
    &&& forall|i: int| 0 <= i < m.0.len() ==> #[trigger] m.0[i] != '\n' && m.0[i] != '<'
    &&& match m.1 {
        Some(e) => e.len() >= 1 && forall|i: int| 0 <= i < e.len() ==> #[trigger] e[i] != '\n',
        None => true,
    }
    &&& 0 <= m.2 <= u64::MAX
    &&& offset_text_ok(m.3)
}

/// Serializing an author and parsing the line back recovers the
/// model exactly.
pub proof fn lemma_author_round_trip(m: (Seq<char>, Option<Seq<char>>, int, Seq<char>))
    requires
        author_valid(m),
    ensures
        author_parse_spec(serialize_author(m)) == Some(m),
{
    crate::text::lemma_dec_str_all_digits(m.2);
    crate::text::lemma_dec_str_val(m.2);
    let n = m.0;
    let dd = crate::text::dec_str_of(m.2);
    let a = serialize_author(m);
    let ls = a.len() - 6;
    assert(a[ls] == ' ');
    assert forall|j: int| ls < j < a.len() implies a[j] != ' ' by {
        assert(a[j] == m.3[j - (ls + 1)]);
        if j == ls + 1 {
        } else {
            assert(crate::text::is_dec_digit(m.3.subrange(1, 5)[j - (ls + 1) - 1]));
        }
    }
    lemma_last_index_of_char(a, ' ', a.len() as int);
    match last_index_of_char(a, ' ', a.len() as int) {
        Some(i) => {
            assert(i == ls);
        },
        None => {
            assert(a[ls] != ' ');
        },
    }
    assert(a.subrange(ls + 1, a.len() as int) =~= m.3);
    let ls2 = ls - 1 - dd.len();
    assert(a[ls2] == ' ');
    assert forall|j: int| ls2 < j < ls implies a[j] != ' ' by {
        assert(a[j] == dd[j - (ls2 + 1)]);
        assert(crate::text::is_dec_digit(dd[j - (ls2 + 1)]));
    }
    lemma_last_index_of_char(a, ' ', ls);
    match last_index_of_char(a, ' ', ls) {
        Some(i) => {
            assert(i == ls2);
        },
        None => {
            assert(a[ls2] != ' ');
        },
    }
    assert(a.subrange(ls2 + 1, ls) =~= dd);
    let who = a.subrange(0, ls2);
    lemma_index_of_char(who, '<', 0);
    match m.1 {
        Some(e) => {
            assert(who =~= n + seq![' ', '<'] + e + seq!['>']);
            let lt: int = n.len() as int + 1;
            assert(who[lt as int] == '<');
            assert forall|j: int| 0 <= j < lt implies who[j] != '<' by {
                if j < n.len() {
                    assert(who[j] == n[j]);
                } else {
                    assert(who[j] == ' ');
                }
            }
            match index_of_char(who, '<', 0) {
                Some(i) => {
                    if i < lt {
                        assert(who[i] != '<');
                    }
                    assert(i == lt);
                },
                None => {
                    assert(who[lt as int] != '<');
                },
            }
            assert(who[lt - 1] == ' ');
            assert(who.last() == '>');
            assert(who.len() >= lt + 2);
            assert(who.subrange(0, lt - 1) =~= n);
            assert(who.subrange(lt + 1, who.len() - 1) =~= e);
        },
        None => {
            assert(who =~= n);
            assert forall|j: int| 0 <= j < who.len() implies who[j] != '<' by {
                assert(who[j] == n[j]);
            }
            match index_of_char(who, '<', 0) {
                Some(i) => {
                    assert(who[i] != '<');
                },
                None => {},
            }
        },
    }
}

} // verus!

verus! {

/// The serialized form of a commit: the tree line, the parent line
/// when there is a parent, the author and committer lines, a blank
/// line, and the message.
pub open spec fn serialize_commit(
    tree: Seq<char>,
    parent: Option<Seq<char>>,
    am: (Seq<char>, Option<Seq<char>>, int, Seq<char>),
    cm: (Seq<char>, Option<Seq<char>>, int, Seq<char>),
    msg: Seq<char>,
) -> Seq<char> {
    tree_line_prefix() + tree + seq!['\n'] + (match parent {
        Some(p) => parent_line_prefix() + p + seq!['\n'],
        None => Seq::<char>::empty(),
    }) + author_line_prefix() + serialize_author(am) + seq!['\n'] + committer_line_prefix()
        + serialize_author(cm) + seq!['\n'] + seq!['\n'] + msg
}

/// A serialized author line contains no newline.
pub proof fn lemma_serialize_author_no_newline(m: (Seq<char>, Option<Seq<char>>, int, Seq<char>))
    requires
        author_valid(m),
    ensures
        forall|j: int|
            0 <= j < serialize_author(m).len() ==> #[trigger] serialize_author(m)[j] != '\n',
{
    crate::text::lemma_dec_str_all_digits(m.2);
    let a = serialize_author(m);
    let dd = crate::text::dec_str_of(m.2);
    assert forall|j: int| 0 <= j < a.len() implies #[trigger] a[j] != '\n' by {
        let e_len: int = match m.1 {
            Some(e) => e.len() as int + 3,
            None => 0,
        };
        let n_end: int = m.0.len() as int;
        let d_start: int = n_end + 1 + e_len;
        if j < n_end {
            assert(a[j] == m.0[j]);
        } else if j == n_end {
            assert(a[j] == ' ');
        } else if j < d_start {
            match m.1 {
                Some(e) => {
                    if j == n_end + 1 {
                        assert(a[j] == '<');
                    } else if j == d_start - 1 {
                        assert(a[j] == ' ');
                    } else if j == d_start - 2 {
                        assert(a[j] == '>');
                    } else {
                        assert(a[j] == e[j - n_end - 2]);
                    }
                },
                None => {},
            }
        } else if j < d_start + dd.len() {
            assert(a[j] == dd[j - d_start]);
            assert(crate::text::is_dec_digit(dd[j - d_start]));
            lemma_digit_not_newline(dd[j - d_start]);
        } else if j == d_start + dd.len() {
            assert(a[j] == ' ');
        } else {
            let k = j - (d_start + dd.len() + 1);
            assert(a[j] == m.3[k]);
            if k == 0 {
            } else {
                assert(crate::text::is_dec_digit(m.3.subrange(1, 5)[k - 1]));
                lemma_digit_not_newline(m.3[k]);
            }
        }
    }
}

/// A decimal digit character is not a newline.
proof fn lemma_digit_not_newline(c: char)
    requires
        crate::text::is_dec_digit(c),
    ensures
        c != '\n',
{
    vstd::utf8::char_u32_cast(c, c as u32);
    vstd::utf8::char_u32_cast('\n', '\n' as u32);
}

/// A stretch of text with no newline, closed by a newline, is one
/// whole line.
proof fn lemma_line_end_at(s: Seq<char>, from: int, end: int)
    requires
        0 <= from <= end < s.len(),
        s[end] == '\n',
        forall|j: int| from <= j < end ==> s[j] != '\n',
    ensures
        line_end(s, from) == end,
{
    lemma_index_of_char(s, '\n', from);
    match index_of_char(s, '\n', from) {
        Some(i) => {
            assert(i == end);
        },
        None => {
            assert(s[end] != '\n');
        },
    }
}

/// The shared head of the round-trip argument: everything from the
/// author line on, given where the author line starts.
#[verifier::rlimit(100)]
proof fn lemma_commit_round_trip_tail(
    tree: Seq<char>,
    parent: Option<Seq<char>>,
    am: (Seq<char>, Option<Seq<char>>, int, Seq<char>),
    cm: (Seq<char>, Option<Seq<char>>, int, Seq<char>),
    msg: Seq<char>,
)
    requires
        author_valid(am),
        author_valid(cm),
        ({
            let s = serialize_commit(tree, parent, am, cm, msg);
            let p_len: int = match parent {
                Some(p) => p.len() as int + 8,
                None => 0,
            };
            let q: int = 5 + tree.len() as int + 1 + p_len;
            &&& s.len() == q + 7 + serialize_author(am).len() + 1 + 10 + serialize_author(
                cm,
            ).len() + 2 + msg.len()
        }),
    ensures
        ({
            let s = serialize_commit(tree, parent, am, cm, msg);
            let aa = serialize_author(am);
            let cc = serialize_author(cm);
            let p_len: int = match parent {
                Some(p) => p.len() as int + 8,
                None => 0,
            };
            let q: int = 5 + tree.len() as int + 1 + p_len;
            let ae: int = q + 7 + aa.len() as int;
            let ce: int = ae + 1 + 10 + cc.len() as int;
            &&& starts_with_at(s, author_line_prefix(), q)
            &&& line_end(s, q + 7) == ae
            &&& s.subrange(q + 7, ae) == aa
            &&& ae < s.len()
            &&& starts_with_at(s, committer_line_prefix(), ae + 1)
            &&& line_end(s, ae + 1 + 10) == ce
            &&& s.subrange(ae + 1 + 10, ce) == cc
            &&& ce + 1 < s.len()
            &&& s[ce + 1] == '\n'
            &&& s.subrange(ce + 2, s.len() as int) == msg
        }),
{
    lemma_serialize_author_no_newline(am);
    lemma_serialize_author_no_newline(cm);
    let s = serialize_commit(tree, parent, am, cm, msg);
    let aa = serialize_author(am);
    let cc = serialize_author(cm);
    let p_len: int = match parent {
        Some(p) => p.len() as int + 8,
        None => 0,
    };
    let q: int = 5 + tree.len() as int + 1 + p_len;
    let ae: int = q + 7 + aa.len() as int;
    let ce: int = ae + 1 + 10 + cc.len() as int;
    assert(starts_with_at(s, author_line_prefix(), q)) by {
        assert(s.subrange(q, q + 7) =~= author_line_prefix());
    }
    assert(line_end(s, q + 7) == ae) by {
        assert(s[ae] == '\n');
        assert forall|j: int| q + 7 <= j < ae implies s[j] != '\n' by {
            assert(s[j] == aa[j - q - 7]);
        }
        lemma_line_end_at(s, q + 7, ae);
    }
    assert(s.subrange(q + 7, ae) =~= aa);
    assert(starts_with_at(s, committer_line_prefix(), ae + 1)) by {
        assert(s.subrange(ae + 1, ae + 11) =~= committer_line_prefix());
    }
    assert(line_end(s, ae + 11) == ce) by {
        assert(s[ce] == '\n');
        assert forall|j: int| ae + 11 <= j < ce implies s[j] != '\n' by {
            assert(s[j] == cc[j - ae - 11]);
        }
        lemma_line_end_at(s, ae + 11, ce);
    }
    assert(s.subrange(ae + 11, ce) =~= cc);
    assert(s[ce + 1] == '\n');
    assert(s.subrange(ce + 2, s.len() as int) =~= msg);
}

/// The round trip for a commit with a parent line.
#[verifier::rlimit(100)]
proof fn lemma_commit_round_trip_some(
    tree: Seq<char>,
    p: Seq<char>,
    am: (Seq<char>, Option<Seq<char>>, int, Seq<char>),
    cm: (Seq<char>, Option<Seq<char>>, int, Seq<char>),
    msg: Seq<char>,
)
    requires
        forall|i: int| 0 <= i < tree.len() ==> #[trigger] tree[i] != '\n',
        forall|i: int| 0 <= i < p.len() ==> #[trigger] p[i] != '\n',
        author_valid(am),
        author_valid(cm),
    ensures
        commit_lines_spec(serialize_commit(tree, Some(p), am, cm, msg)) == Some(
            (tree, Some(p), serialize_author(am), serialize_author(cm), msg),
        ),
{
    lemma_serialize_author_no_newline(am);
    lemma_serialize_author_no_newline(cm);
    let s = serialize_commit(tree, Some(p), am, cm, msg);
    let aa = serialize_author(am);
    let cc = serialize_author(cm);
    let te: int = 5 + tree.len() as int;
    let q: int = te + 1 + p.len() as int + 8;
    let ae: int = q + 7 + aa.len() as int;
    let ce: int = ae + 1 + 10 + cc.len() as int;
    assert(s.len() == ce + 2 + msg.len());
    lemma_commit_round_trip_tail(tree, Some(p), am, cm, msg);
    assert(starts_with_at(s, tree_line_prefix(), 0)) by {
        assert(s.subrange(0, 5) =~= tree_line_prefix());
    }
    assert(line_end(s, 5) == te) by {
        assert(s[te] == '\n');
        assert forall|j: int| 5 <= j < te implies s[j] != '\n' by {
            assert(s[j] == tree[j - 5]);
        }
        lemma_line_end_at(s, 5, te);
    }
    assert(s.subrange(5, te) =~= tree);
    assert(te < s.len());
    assert(starts_with_at(s, parent_line_prefix(), te + 1)) by {
        assert(s.subrange(te + 1, te + 8) =~= parent_line_prefix());
    }
    let pe: int = te + 8 + p.len() as int;
    assert(line_end(s, te + 8) == pe) by {
        assert(s[pe] == '\n');
        assert forall|j: int| te + 8 <= j < pe implies s[j] != '\n' by {
            assert(s[j] == p[j - te - 8]);
        }
        lemma_line_end_at(s, te + 8, pe);
    }
    assert(s.subrange(te + 8, pe) =~= p);
    assert(pe < s.len());
    assert(!starts_with_at(s, parent_line_prefix(), q)) by {
        assert(s[q] == 'a');
        if starts_with_at(s, parent_line_prefix(), q) {
            assert(s.subrange(q, q + 7)[0] == 'a');
        }
    }
    assert(skip_parents(s, q) == (None::<Seq<char>>, q));
    assert(skip_parents(s, te + 1) == (Some(p), q));
}

/// The round trip for a root commit, without a parent line.
#[verifier::rlimit(100)]
proof fn lemma_commit_round_trip_none(
    tree: Seq<char>,
    am: (Seq<char>, Option<Seq<char>>, int, Seq<char>),
    cm: (Seq<char>, Option<Seq<char>>, int, Seq<char>),
    msg: Seq<char>,
)
    requires
        forall|i: int| 0 <= i < tree.len() ==> #[trigger] tree[i] != '\n',
        author_valid(am),
        author_valid(cm),
    ensures
        commit_lines_spec(serialize_commit(tree, None, am, cm, msg)) == Some(
            (tree, None::<Seq<char>>, serialize_author(am), serialize_author(cm), msg),
        ),
{
    lemma_serialize_author_no_newline(am);
    lemma_serialize_author_no_newline(cm);
    let s = serialize_commit(tree, None, am, cm, msg);
    let aa = serialize_author(am);
    let cc = serialize_author(cm);
    let te: int = 5 + tree.len() as int;
    let q: int = te + 1;
    let ae: int = q + 7 + aa.len() as int;
    let ce: int = ae + 1 + 10 + cc.len() as int;
    assert(s.len() == ce + 2 + msg.len());
    lemma_commit_round_trip_tail(tree, None, am, cm, msg);
    assert(starts_with_at(s, tree_line_prefix(), 0)) by {
        assert(s.subrange(0, 5) =~= tree_line_prefix());
    }
    assert(line_end(s, 5) == te) by {
        assert(s[te] == '\n');
        assert forall|j: int| 5 <= j < te implies s[j] != '\n' by {
            assert(s[j] == tree[j - 5]);
        }
        lemma_line_end_at(s, 5, te);
    }
    assert(s.subrange(5, te) =~= tree);
    assert(te < s.len());
    assert(!starts_with_at(s, parent_line_prefix(), te + 1)) by {
        assert(s[te + 1] == 'a');
        if starts_with_at(s, parent_line_prefix(), te + 1) {
            assert(s.subrange(te + 1, te + 8)[0] == 'a');
        }
    }
    assert(skip_parents(s, te + 1) == (None::<Seq<char>>, q));
}

/// Serializing a commit and parsing it back recovers the tree id,
/// the parent, both author models and the message exactly.
pub proof fn lemma_commit_round_trip(
    tree: Seq<char>,
    parent: Option<Seq<char>>,
    am: (Seq<char>, Option<Seq<char>>, int, Seq<char>),
    cm: (Seq<char>, Option<Seq<char>>, int, Seq<char>),
    msg: Seq<char>,
)
    requires
        forall|i: int| 0 <= i < tree.len() ==> #[trigger] tree[i] != '\n',
        match parent {
            Some(p) => forall|i: int| 0 <= i < p.len() ==> #[trigger] p[i] != '\n',
            None => true,
        },
        author_valid(am),
        author_valid(cm),
    ensures
        commit_lines_spec(serialize_commit(tree, parent, am, cm, msg)) == Some(
            (tree, parent, serialize_author(am), serialize_author(cm), msg),
        ),
        author_parse_spec(serialize_author(am)) == Some(am),
        author_parse_spec(serialize_author(cm)) == Some(cm),
{
    lemma_author_round_trip(am);
    lemma_author_round_trip(cm);
    match parent {
        Some(p) => {
            lemma_commit_round_trip_some(tree, p, am, cm, msg);
        },
        None => {
            lemma_commit_round_trip_none(tree, am, cm, msg);
        },
    }
}


} // verus!

verus! {

impl CommitAuthor {
    /// The parsed-model view of this author value.
    pub open spec fn model(&self) -> (Seq<char>, Option<Seq<char>>, int, Seq<char>) {
        (
            self.name@,
            match self.email {
                Some(e) => Some(e@),
                None => None,
            },
            self.timestamp as int,
            self.kind@,
        )
    }

    /// Writes the author back in the grammar's form:
    /// `name [<email>] timestamp offset`.
    pub fn serialize(&self) -> (r: String)
        ensures
            r@ == serialize_author(self.model()),
    {
        let mut s = crate::objects::blob::clone_string(&self.name);
        crate::text::push_char(&mut s, ' ');
        match &self.email {
            Some(e) => {
                crate::text::push_char(&mut s, '<');
                crate::text::append_str(&mut s, e.as_str());
                crate::text::push_char(&mut s, '>');
                crate::text::push_char(&mut s, ' ');
            },
            None => {},
        }
        let ts = crate::text::u64_to_dec_string(self.timestamp);
        crate::text::append_str(&mut s, ts.as_str());
        crate::text::push_char(&mut s, ' ');
        crate::text::append_str(&mut s, self.kind.as_str());
        proof {
            assert(s@ =~= serialize_author(self.model()));
        }
        s
    }
}

impl CommitObject {
    /// The parsed-model view of the parent field.
    pub open spec fn parent_model(&self) -> Option<Seq<char>> {
        match self.parent {
            Some(p) => Some(p@),
            None => None,
        }
    }

    /// Writes the commit payload back in the grammar's form: the
    /// header lines, a blank line, and the message.
    pub fn serialize(&self) -> (r: String)
        ensures
            r@ == serialize_commit(
                self.tree@,
                self.parent_model(),
                self.author.model(),
                self.committer.model(),
                self.message@,
            ),
    {
        let mut s = String::new();
        crate::text::append_str(&mut s, "tree ");
        proof {
            reveal_strlit("tree ");
            assert(s@ =~= tree_line_prefix());
        }
        crate::text::append_str(&mut s, self.tree.as_str());
        crate::text::push_char(&mut s, '\n');
        match &self.parent {
            Some(p) => {
                let ghost pre = s@;
                crate::text::append_str(&mut s, "parent ");
                proof {
                    reveal_strlit("parent ");
                    assert(s@ =~= pre + parent_line_prefix());
                }
                crate::text::append_str(&mut s, p.as_str());
                crate::text::push_char(&mut s, '\n');
            },
            None => {},
        }
        let ghost pre = s@;
        crate::text::append_str(&mut s, "author ");
        proof {
            reveal_strlit("author ");
            assert(s@ =~= pre + author_line_prefix());
        }
        let author_text = self.author.serialize();
        crate::text::append_str(&mut s, author_text.as_str());
        crate::text::push_char(&mut s, '\n');
        let ghost pre2 = s@;
        crate::text::append_str(&mut s, "committer ");
        proof {
            reveal_strlit("committer ");
            assert(s@ =~= pre2 + committer_line_prefix());
        }
        let committer_text = self.committer.serialize();
        crate::text::append_str(&mut s, committer_text.as_str());
        crate::text::push_char(&mut s, '\n');
        crate::text::push_char(&mut s, '\n');
        crate::text::append_str(&mut s, self.message.as_str());
        proof {
            assert(s@ =~= serialize_commit(
                self.tree@,
                self.parent_model(),
                self.author.model(),
                self.committer.model(),
                self.message@,
            ));
        }
        s
    }
}

} // verus!

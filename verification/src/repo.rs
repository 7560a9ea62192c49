//! The repository: an in-memory snapshot of the object database and
//! the branch refs, a line-count cache keyed by object id, and the
//! tree walk that fills a path-to-line-count table from it.

use vstd::prelude::*;

use crate::errors::GitError;
use crate::objects::blob::{clone_string, count_newlines};
use crate::objects::commit::CommitObject;
use crate::objects::tree::{item_matches, tree_items_spec, TreeItem, TreeObject};
use crate::objects::{
    inflate_zlib_of, kind_blob_bytes, kind_tree_bytes, parse_header_spec, GitObject,
    GitObjectType,
};

verus! {

/// A coarse repository-parsing error that names no cause; [`GitError`]
/// carries the detailed causes.
#[derive(Debug, Clone, Copy, PartialEq, Eq, Structural)]
pub struct ParseGitRepoError;

impl ParseGitRepoError {
    /// A short human-readable description of the error.
    pub fn message(&self) -> &'static str {
        "can't parse git repository from input"
    }
}

/// Whether no two entries share a key.
pub open spec fn keys_unique(entries: Seq<(String, u32)>) -> bool {
    forall|i: int, j: int|
        0 <= i < j < entries.len() ==> (#[trigger] entries[i]).0@ != (#[trigger] entries[j]).0@
}

/// The mapping a list of entries stands for, later entries winning.
pub open spec fn entries_map(entries: Seq<(String, u32)>) -> Map<Seq<char>, u32>
    decreases entries.len(),
{
    if entries.len() == 0 {
        Map::empty()
    } else {
        entries_map(entries.drop_last()).insert(entries.last().0@, entries.last().1)
    }
}

/// A key is in the mapping exactly when some entry carries it.
pub proof fn lemma_entries_map_contains(entries: Seq<(String, u32)>, k: Seq<char>)
    ensures
        entries_map(entries).contains_key(k) <==> exists|i: int|
            0 <= i < entries.len() && (#[trigger] entries[i]).0@ == k,
    decreases entries.len(),
{
    if entries.len() > 0 {
        lemma_entries_map_contains(entries.drop_last(), k);
        if entries.last().0@ == k {
            assert(entries[entries.len() - 1].0@ == k);
        } else if entries_map(entries).contains_key(k) {
            let i = choose|i: int|
                0 <= i < entries.drop_last().len() && (#[trigger] entries.drop_last()[i]).0@
                    == k;
            assert(entries[i].0@ == k);
        } else {
            assert forall|i: int| 0 <= i < entries.len() implies (#[trigger] entries[i]).0@
                != k by {
                if i < entries.len() - 1 {
                    assert(entries.drop_last()[i] == entries[i]);
                }
            }
        }
    }
}

/// With unique keys, each entry gives its key's value in the mapping.
pub proof fn lemma_entries_map_value(entries: Seq<(String, u32)>, i: int)
    requires
        keys_unique(entries),
        0 <= i < entries.len(),
    ensures
        entries_map(entries).contains_key(entries[i].0@),
        entries_map(entries)[entries[i].0@] == entries[i].1,
    decreases entries.len(),
{
    if i == entries.len() - 1 {
    } else {
        assert(keys_unique(entries.drop_last())) by {
            assert forall|a: int, b: int|
                0 <= a < b < entries.drop_last().len() implies (#[trigger] entries.drop_last()[a]).0@
                != (#[trigger] entries.drop_last()[b]).0@ by {
                assert(entries.drop_last()[a] == entries[a]);
                assert(entries.drop_last()[b] == entries[b]);
            }
        }
        lemma_entries_map_value(entries.drop_last(), i);
        assert(entries.drop_last()[i] == entries[i]);
        assert(entries[i].0@ != entries.last().0@);
    }
}

/// A table from path or object-id strings to line counts, with one
/// entry per key.
#[derive(Debug, Clone)]
pub struct LineCountMap {
    /// The entries, in insertion order.
    pub entries: Vec<(String, u32)>,
}

impl LineCountMap {
    /// The mapping the table stands for.
    pub open spec fn view(&self) -> Map<Seq<char>, u32> {
        entries_map(self.entries@)
    }

    /// The table's invariant: no two entries share a key.
    pub open spec fn wf(&self) -> bool {
        keys_unique(self.entries@)
    }

    /// An empty table.
    pub fn new() -> (r: Self)
        ensures
            r@ == Map::<Seq<char>, u32>::empty(),
            r.wf(),
            r.entries@.len() == 0,
    {
        LineCountMap { entries: Vec::new() }
    }

    /// Looks a key up.
    pub fn get(&self, key: &String) -> (r: Option<u32>)
        requires
            self.wf(),
        ensures
            match r {
                Some(v) => self@.contains_key(key@) && self@[key@] == v,
                None => !self@.contains_key(key@),
            },
    {
        let n = self.entries.len();
        let mut i: usize = 0;
        while i < n
            invariant
                self.wf(),
                i <= n == self.entries@.len(),
                forall|j: int| 0 <= j < i ==> (#[trigger] self.entries@[j]).0@ != key@,
            decreases n - i,
        {
            if string_eq(&self.entries[i].0, key) {
                proof {
                    lemma_entries_map_value(self.entries@, i as int);
                }
                return Some(self.entries[i].1);
            }
            i = i + 1;
        }
        proof {
            lemma_entries_map_contains(self.entries@, key@);
        }
        None
    }

    /// Inserts a key, replacing any entry that already carries it,
    /// and returns the value it replaced.
    pub fn insert(&mut self, key: String, value: u32) -> (r: Option<u32>)
        requires
            old(self).wf(),
        ensures
            final(self).wf(),
            final(self)@ == old(self)@.insert(key@, value),
            match r {
                Some(v) => old(self)@.contains_key(key@) && old(self)@[key@] == v,
                None => !old(self)@.contains_key(key@),
            },
            r is None ==> final(self).entries@.len() == old(self).entries@.len() + 1,
            r is Some ==> final(self).entries@.len() == old(self).entries@.len(),
    {
        let n = self.entries.len();
        let mut i: usize = 0;
        while i < n
            invariant
                self.wf(),
                self.entries == old(self).entries,
                i <= n == self.entries@.len(),
                forall|j: int| 0 <= j < i ==> (#[trigger] self.entries@[j]).0@ != key@,
            decreases n - i,
        {
            if string_eq(&self.entries[i].0, &key) {
                proof {
                    lemma_entries_map_value(self.entries@, i as int);
                }
                let prior = self.entries[i].1;
                self.entries[i] = (key, value);
                proof {
                    lemma_map_after_replace(old(self).entries@, self.entries@, i as int);
                }
                return Some(prior);
            }
            i = i + 1;
        }
        proof {
            lemma_entries_map_contains(self.entries@, key@);
        }
        self.entries.push((key, value));
        proof {
            assert(self.entries@.drop_last() =~= old(self).entries@);
            assert forall|a: int, b: int| 0 <= a < b < self.entries@.len() implies (
            #[trigger] self.entries@[a]).0@ != (#[trigger] self.entries@[b]).0@ by {
                if b < self.entries@.len() - 1 {
                    assert(self.entries@[a] == old(self).entries@[a]);
                    assert(self.entries@[b] == old(self).entries@[b]);
                } else {
                    assert(self.entries@[a] == old(self).entries@[a]);
                }
            }
        }
        None
    }

    /// How many keys the table holds.
    pub fn len(&self) -> (r: usize)
        ensures
            r == self.entries@.len(),
    {
        self.entries.len()
    }
}

/// Replacing the entry at `i` with one that carries the same key
/// yields the mapping with that key rebound.
proof fn lemma_map_after_replace(pre: Seq<(String, u32)>, post: Seq<(String, u32)>, i: int)
    requires
        0 <= i < pre.len(),
        post.len() == pre.len(),
        forall|j: int| 0 <= j < pre.len() && j != i ==> post[j] == pre[j],
        post[i].0@ == pre[i].0@,
        keys_unique(pre),
    ensures
        keys_unique(post),
        entries_map(post) == entries_map(pre).insert(post[i].0@, post[i].1),
    decreases pre.len(),
{
    assert forall|a: int, b: int| 0 <= a < b < post.len() implies (#[trigger] post[a]).0@ != (
    #[trigger] post[b]).0@ by {
        assert(post[a].0@ == pre[a].0@);
        assert(post[b].0@ == pre[b].0@);
    }
    if i == pre.len() - 1 {
        assert(post.drop_last() =~= pre.drop_last());
        assert(entries_map(post) =~= entries_map(pre).insert(post[i].0@, post[i].1)) by {
            lemma_entries_map_contains(pre.drop_last(), pre[i].0@);
        }
    } else {
        assert(keys_unique(pre.drop_last())) by {
            assert forall|a: int, b: int|
                0 <= a < b < pre.drop_last().len() implies (#[trigger] pre.drop_last()[a]).0@
                != (#[trigger] pre.drop_last()[b]).0@ by {
                assert(pre.drop_last()[a] == pre[a]);
                assert(pre.drop_last()[b] == pre[b]);
            }
        }
        assert forall|j: int| 0 <= j < pre.drop_last().len() && j != i implies post.drop_last()[j]
            == pre.drop_last()[j] by {
            assert(post.drop_last()[j] == post[j]);
            assert(pre.drop_last()[j] == pre[j]);
        }
        assert(post.drop_last()[i] == post[i]);
        assert(pre.drop_last()[i] == pre[i]);
        lemma_map_after_replace(pre.drop_last(), post.drop_last(), i);
        assert(post.last() == pre.last());
        assert(pre[i].0@ != pre.last().0@);
        assert(entries_map(post) =~= entries_map(pre).insert(post[i].0@, post[i].1));
    }
}

/// Compares two strings by their characters.
pub fn string_eq(a: &String, b: &String) -> (r: bool)
    ensures
        r == (a@ == b@),
{
    a.eq(b)
}

/// The compressed bytes stored under `k`, taking the first entry
/// with that id.
pub open spec fn assoc_data(objs: Seq<(String, Vec<u8>)>, k: Seq<char>) -> Option<Seq<u8>>
    decreases objs.len(),
{
    if objs.len() == 0 {
        None
    } else if objs[0].0@ == k {
        Some(objs[0].1@)
    } else {
        assoc_data(objs.drop_first(), k)
    }
}

/// The branch tip recorded under `name`, taking the first ref with
/// that name.
pub open spec fn assoc_ref(refs: Seq<(String, String)>, name: Seq<char>) -> Option<Seq<char>>
    decreases refs.len(),
{
    if refs.len() == 0 {
        None
    } else if refs[0].0@ == name {
        Some(refs[0].1@)
    } else {
        assoc_ref(refs.drop_first(), name)
    }
}

/// What walking to a blob yields for an object id: the stored bytes
/// must decompress, carry a `blob` header, and the payload's line
/// count is one more than its newline count.
pub open spec fn blob_line_count_at(objs: Seq<(String, Vec<u8>)>, oid: Seq<char>) -> Option<
    int,
> {
    match assoc_data(objs, oid) {
        None => None,
        Some(comp) => match inflate_zlib_of(comp) {
            None => None,
            Some(d) => match parse_header_spec(d) {
                None => None,
                Some(h) => if h.0 == kind_blob_bytes() && h.2.len() < u32::MAX {
                    Some(1 + count_newlines(h.2))
                } else {
                    None
                },
            },
        },
    }
}

/// An in-memory repository snapshot: every loose object's compressed
/// bytes keyed by id, the branch refs, the line-count cache, and a
/// counter of how many blobs were actually loaded and parsed.
#[derive(Debug)]
pub struct Repo {
    /// Each object's compressed bytes under its 40-character hex id.
    pub objects: Vec<(String, Vec<u8>)>,
    /// Branch name to the 40-character hex id of its tip commit.
    pub branch_refs: Vec<(String, String)>,
    /// Branch names, filled in by [`Repo::enumerate_branches`].
    pub branches: Option<Vec<String>>,
    /// Line counts already computed, keyed by blob id.
    pub line_count_cache: LineCountMap,
    /// How many blobs were decompressed and parsed for the cache:
    /// the walk performs that work at most once per object id.
    pub blob_loads: u64,
}

impl Repo {
    /// A repository snapshot from loaded objects and refs, with an
    /// empty cache.
    pub fn new(objects: Vec<(String, Vec<u8>)>, branch_refs: Vec<(String, String)>) -> (r: Self)
        ensures
            r.objects == objects,
            r.branch_refs == branch_refs,
            r.branches is None,
            r.line_count_cache@ == Map::<Seq<char>, u32>::empty(),
            r.line_count_cache.wf(),
            r.line_count_cache.entries@.len() == 0,
            r.blob_loads == 0,
            r.wf(),
    {
        Repo {
            objects,
            branch_refs,
            branches: None,
            line_count_cache: LineCountMap::new(),
            blob_loads: 0,
        }
    }

    /// A cached line count for an object id, if one was recorded.
    pub fn get_from_cache(&self, key: &String) -> (r: Option<u32>)
        requires
            self.line_count_cache.wf(),
        ensures
            match r {
                Some(v) => self.line_count_cache@.contains_key(key@)
                    && self.line_count_cache@[key@] == v,
                None => !self.line_count_cache@.contains_key(key@),
            },
    {
        self.line_count_cache.get(key)
    }

    /// Records a line count for an object id, returning any count the
    /// cache already held for it.
    pub fn add_to_cache(&mut self, key: String, value: u32) -> (r: Option<u32>)
        requires
            old(self).line_count_cache.wf(),
        ensures
            final(self).line_count_cache.wf(),
            final(self).line_count_cache@ == old(self).line_count_cache@.insert(key@, value),
            final(self).objects == old(self).objects,
            final(self).branch_refs == old(self).branch_refs,
            final(self).branches == old(self).branches,
            final(self).blob_loads == old(self).blob_loads,
            match r {
                Some(v) => old(self).line_count_cache@.contains_key(key@)
                    && old(self).line_count_cache@[key@] == v,
                None => !old(self).line_count_cache@.contains_key(key@),
            },
            r is None ==> final(self).line_count_cache.entries@.len() == old(
                self,
            ).line_count_cache.entries@.len() + 1,
            r is Some ==> final(self).line_count_cache.entries@.len() == old(
                self,
            ).line_count_cache.entries@.len(),
    {
        self.line_count_cache.insert(key, value)
    }

    /// The stored compressed bytes of the object with the given id.
    pub fn get_object_data(&self, oid: &String) -> (r: Result<Vec<u8>, GitError>)
        ensures
            match r {
                Ok(v) => assoc_data(self.objects@, oid@) == Some(v@),
                Err(e) => {
                    &&& assoc_data(self.objects@, oid@) is None
                    &&& e == GitError::ObjectNotFound
                },
            },
    {
        let n = self.objects.len();
        let mut i: usize = 0;
        proof {
            assert(self.objects@.skip(0) == self.objects@);
        }
        while i < n
            invariant
                i <= n == self.objects@.len(),
                assoc_data(self.objects@, oid@) == assoc_data(
                    self.objects@.skip(i as int),
                    oid@,
                ),
        decreases n - i,
        {
            proof {
                assert(self.objects@.skip(i as int)[0] == self.objects@[i as int]);
                assert(self.objects@.skip(i as int).drop_first() =~= self.objects@.skip(i + 1));
            }
            if string_eq(&self.objects[i].0, oid) {
                return Ok(clone_bytes(&self.objects[i].1));
            }
            i = i + 1;
        }
        proof {
            assert(self.objects@.skip(n as int) =~= Seq::<(String, Vec<u8>)>::empty());
        }
        Err(GitError::ObjectNotFound)
    }

    /// Resolves a branch name to the 40-character hex id of its tip.
    pub fn get_branch_oid(&self, branch_name: &str) -> (r: Result<String, GitError>)
        ensures
            match r {
                Ok(v) => assoc_ref(self.branch_refs@, branch_name@) == Some(v@),
                Err(e) => {
                    &&& assoc_ref(self.branch_refs@, branch_name@) is None
                    &&& e == GitError::BranchNotFound
                },
            },
    {
        let n = self.branch_refs.len();
        let mut i: usize = 0;
        proof {
            assert(self.branch_refs@.skip(0) == self.branch_refs@);
        }
        while i < n
            invariant
                i <= n == self.branch_refs@.len(),
                assoc_ref(self.branch_refs@, branch_name@) == assoc_ref(
                    self.branch_refs@.skip(i as int),
                    branch_name@,
                ),
        decreases n - i,
        {
            proof {
                assert(self.branch_refs@.skip(i as int)[0] == self.branch_refs@[i as int]);
                assert(self.branch_refs@.skip(i as int).drop_first() =~= self.branch_refs@.skip(
                    i + 1,
                ));
            }
            if str_eq_string(branch_name, &self.branch_refs[i].0) {
                return Ok(clone_string(&self.branch_refs[i].1));
            }
            i = i + 1;
        }
        proof {
            assert(self.branch_refs@.skip(n as int) =~= Seq::<(String, String)>::empty());
        }
        Err(GitError::BranchNotFound)
    }

    /// Fills the `branches` field with the names of all branch refs.
    pub fn enumerate_branches(self) -> (r: Result<Self, GitError>)
        ensures
            match r {
                Ok(out) => {
                    &&& out.objects == self.objects
                    &&& out.branch_refs == self.branch_refs
                    &&& out.line_count_cache == self.line_count_cache
                    &&& out.blob_loads == self.blob_loads
                    &&& match out.branches {
                        Some(names) => {
                            &&& names@.len() == self.branch_refs@.len()
                            &&& forall|i: int|
                                0 <= i < names@.len() ==> (#[trigger] names@[i])@
                                    == self.branch_refs@[i].0@
                        },
                        None => false,
                    }
                },
                Err(_) => false,
            },
    {
        let mut names: Vec<String> = Vec::new();
        let n = self.branch_refs.len();
        let mut i: usize = 0;
        while i < n
            invariant
                i <= n == self.branch_refs@.len(),
                names@.len() == i,
                forall|j: int|
                    0 <= j < i ==> (#[trigger] names@[j])@ == self.branch_refs@[j].0@,
            decreases n - i,
        {
            names.push(clone_string(&self.branch_refs[i].0));
            i = i + 1;
        }
        Ok(
            Repo {
                objects: self.objects,
                branch_refs: self.branch_refs,
                branches: Some(names),
                line_count_cache: self.line_count_cache,
                blob_loads: self.blob_loads,
            },
        )
    }

    /// Loads and parses the commit a branch name points at.
    pub fn get_branch(&self, branch_name: &str) -> (r: Result<CommitObject, GitError>)
        ensures
            match r {
                Ok(c) => match assoc_ref(self.branch_refs@, branch_name@) {
                    Some(oid) => match assoc_data(self.objects@, oid) {
                        Some(comp) => match inflate_zlib_of(comp) {
                            Some(d) => match parse_header_spec(d) {
                                Some(h) => {
                                    &&& h.0 == crate::objects::kind_commit_bytes()
                                    &&& crate::objects::commit::commit_matches(
                                        c,
                                        crate::objects::lossy_utf8_of(h.2),
                                        h.1,
                                        oid,
                                    )
                                },
                                None => false,
                            },
                            None => false,
                        },
                        None => false,
                    },
                    None => false,
                },
                Err(e) => match assoc_ref(self.branch_refs@, branch_name@) {
                    None => e == GitError::BranchNotFound,
                    Some(oid) => {
                        &&& (e == GitError::ObjectNotFound <==> assoc_data(self.objects@, oid)
                            is None)
                        &&& (e == GitError::CorruptObject <==> (assoc_data(self.objects@, oid)
                            matches Some(comp) && inflate_zlib_of(comp) is None))
                        &&& (e == GitError::MalformedHeader <==> (assoc_data(self.objects@, oid)
                            matches Some(comp) && inflate_zlib_of(comp) matches Some(d)
                            && parse_header_spec(d) is None))
                        &&& (e == GitError::KindMismatch <==> (assoc_data(self.objects@, oid)
                            matches Some(comp) && inflate_zlib_of(comp) matches Some(d)
                            && parse_header_spec(d) matches Some(h) && h.0
                            != crate::objects::kind_commit_bytes()))
                        &&& (e == GitError::MalformedCommit <==> (assoc_data(self.objects@, oid)
                            matches Some(comp) && inflate_zlib_of(comp) matches Some(d)
                            && parse_header_spec(d) matches Some(h) && h.0
                            == crate::objects::kind_commit_bytes()
                            && crate::objects::commit::commit_lines_spec(
                            crate::objects::lossy_utf8_of(h.2),
                        ) is None))
                        &&& (e == GitError::MalformedAuthorLine <==> (assoc_data(
                            self.objects@,
                            oid,
                        ) matches Some(comp) && inflate_zlib_of(comp) matches Some(d)
                            && parse_header_spec(d) matches Some(h) && h.0
                            == crate::objects::kind_commit_bytes()
                            && crate::objects::commit::author_line_failure(
                            crate::objects::lossy_utf8_of(h.2),
                        )))
                        &&& (e == GitError::ObjectNotFound || e == GitError::CorruptObject || e
                            == GitError::MalformedHeader || e == GitError::KindMismatch || e
                            == GitError::MalformedCommit || e == GitError::MalformedAuthorLine)
                    },
                },
            },
    {
        let branch_index = match self.get_branch_oid(branch_name) {
            Ok(v) => v,
            Err(e) => { return Err(e) },
        };
        let git_object = match GitObject::from_oid(self, branch_index.as_str()) {
            Ok(v) => v,
            Err(e) => { return Err(e) },
        };
        let commit_object = match CommitObject::from_git_object(&git_object) {
            Ok(c) => c,
            Err(e) => { return Err(e) },
        };
        Ok(*commit_object)
    }

    /// Loads and parses the commit with the given id.
    pub fn get_commit_from_oid(&self, index: &str) -> (r: Result<CommitObject, GitError>)
        ensures
            match r {
                Ok(c) => match assoc_data(self.objects@, index@) {
                    Some(comp) => match inflate_zlib_of(comp) {
                        Some(d) => match parse_header_spec(d) {
                            Some(h) => {
                                &&& h.0 == crate::objects::kind_commit_bytes()
                                &&& crate::objects::commit::commit_matches(
                                    c,
                                    crate::objects::lossy_utf8_of(h.2),
                                    h.1,
                                    index@,
                                )
                            },
                            None => false,
                        },
                        None => false,
                    },
                    None => false,
                },
                Err(e) => {
                    &&& (e == GitError::ObjectNotFound <==> assoc_data(self.objects@, index@)
                        is None)
                    &&& (e == GitError::CorruptObject <==> (assoc_data(self.objects@, index@)
                        matches Some(comp) && inflate_zlib_of(comp) is None))
                    &&& (e == GitError::MalformedHeader <==> (assoc_data(self.objects@, index@)
                        matches Some(comp) && inflate_zlib_of(comp) matches Some(d)
                        && parse_header_spec(d) is None))
                    &&& (e == GitError::KindMismatch <==> (assoc_data(self.objects@, index@)
                        matches Some(comp) && inflate_zlib_of(comp) matches Some(d)
                        && parse_header_spec(d) matches Some(h) && h.0
                        != crate::objects::kind_commit_bytes()))
                    &&& (e == GitError::MalformedCommit <==> (assoc_data(self.objects@, index@)
                        matches Some(comp) && inflate_zlib_of(comp) matches Some(d)
                        && parse_header_spec(d) matches Some(h) && h.0
                        == crate::objects::kind_commit_bytes()
                        && crate::objects::commit::commit_lines_spec(
                        crate::objects::lossy_utf8_of(h.2),
                    ) is None))
                    &&& (e == GitError::MalformedAuthorLine <==> (assoc_data(self.objects@, index@)
                        matches Some(comp) && inflate_zlib_of(comp) matches Some(d)
                        && parse_header_spec(d) matches Some(h) && h.0
                        == crate::objects::kind_commit_bytes()
                        && crate::objects::commit::author_line_failure(
                        crate::objects::lossy_utf8_of(h.2),
                    )))
                    &&& (e == GitError::ObjectNotFound || e == GitError::CorruptObject || e
                        == GitError::MalformedHeader || e == GitError::KindMismatch || e
                        == GitError::MalformedCommit || e == GitError::MalformedAuthorLine)
                },
            },
    {
        let git_object = match GitObject::from_oid(self, index) {
            Ok(v) => v,
            Err(e) => { return Err(e) },
        };
        let commit_object = match CommitObject::from_git_object(&git_object) {
            Ok(c) => c,
            Err(e) => { return Err(e) },
        };
        Ok(*commit_object)
    }
}

/// The parts of a repository the tree walk never changes.
pub open spec fn walk_keeps_store(pre: Repo, post: Repo) -> bool {
    &&& post.objects == pre.objects
    &&& post.branch_refs == pre.branch_refs
    &&& post.branches == pre.branches
}

/// Counts already cached stay cached, with the same value: a cached
/// object id is never recomputed.
pub open spec fn cache_preserved(pre: Repo, post: Repo) -> bool {
    forall|k: Seq<char>|
        pre.line_count_cache@.contains_key(k) ==> #[trigger] post.line_count_cache@.contains_key(
            k,
        ) && post.line_count_cache@[k] == pre.line_count_cache@[k]
}

/// Every blob load is matched by exactly one new cache entry: the
/// loader runs at most once per distinct object id.
pub open spec fn loads_match_cache_growth(pre: Repo, post: Repo) -> bool {
    post.blob_loads - pre.blob_loads == post.line_count_cache.entries@.len()
        - pre.line_count_cache.entries@.len()
}

/// Every cache entry added is a genuine line count: the bytes stored
/// under that id decompress to a blob with exactly that many lines.
pub open spec fn new_cache_entries_true(pre: Repo, post: Repo) -> bool {
    forall|k: Seq<char>|
        !pre.line_count_cache@.contains_key(k) && #[trigger] post.line_count_cache@.contains_key(
            k,
        ) ==> blob_line_count_at(post.objects@, k) == Some(post.line_count_cache@[k] as int)
}

/// The path key an entry contributes under a prefix: the name
/// itself at the root, else the prefix, a slash, and the name.
pub open spec fn join_path(prefix: Seq<char>, name: Seq<char>) -> Seq<char> {
    if prefix.len() == 0 {
        name
    } else {
        prefix + seq!['/'] + name
    }
}

/// The walk-relevant view of parsed tree entries: each entry's mode,
/// decoded file name, and hex object id.
pub open spec fn items_model(items: Seq<TreeItem>) -> Seq<(int, Seq<char>, Seq<char>)> {
    items.map_values(|it: TreeItem| (it.mode as int, it.filename@, it.oid@))
}

/// What an id yields when the walk expands it as a subtree: the
/// stored bytes must decompress, carry a `tree` header, and the
/// payload must partition into records; the records appear in
/// walk-model form.
pub open spec fn tree_child_items(objs: Seq<(String, Vec<u8>)>, oid: Seq<char>) -> Option<
    Seq<(int, Seq<char>, Seq<char>)>,
> {
    match assoc_data(objs, oid) {
        None => None,
        Some(comp) => match inflate_zlib_of(comp) {
            None => None,
            Some(d) => match parse_header_spec(d) {
                None => None,
                Some(h) => if h.0 == kind_tree_bytes() {
                    match tree_items_spec(h.2, 0) {
                        None => None,
                        Some(ms) => Some(
                            ms.map_values(
                                |m: (int, Seq<u8>, Seq<u8>)| (
                                    m.0,
                                    crate::objects::lossy_utf8_of(m.1),
                                    crate::text::hex_of(m.2),
                                ),
                            ),
                        ),
                    }
                } else {
                    None
                },
            },
        },
    }
}

/// What one tree entry does to the walk's state: the cache, the
/// output table, and the load counter.  A cached id is answered from
/// the cache; an uncached blob is counted, cached and recorded (one
/// load); a subtree is expanded under the joined path while fuel
/// remains; everything else, including any unreadable or malformed
/// object, changes nothing.
pub open spec fn walk_entry(
    objs: Seq<(String, Vec<u8>)>,
    prefix: Seq<char>,
    fuel: int,
    it: (int, Seq<char>, Seq<char>),
    st: (Map<Seq<char>, u32>, Map<Seq<char>, u32>, int),
) -> (Map<Seq<char>, u32>, Map<Seq<char>, u32>, int)
    decreases fuel, 0int, 0int,
{
    let path = join_path(prefix, it.1);
    if st.0.contains_key(it.2) {
        (st.0, st.1.insert(path, st.0[it.2]), st.2)
    } else if blob_line_count_at(objs, it.2) is Some {
        let c = blob_line_count_at(objs, it.2)->Some_0;
        (st.0.insert(it.2, c as u32), st.1.insert(path, c as u32), st.2 + 1)
    } else if fuel > 0 && tree_child_items(objs, it.2) is Some {
        walk_spec(objs, path, fuel - 1, tree_child_items(objs, it.2)->Some_0, st)
    } else {
        st
    }
}

/// The walk over a list of tree entries, in order, threading the
/// state through [`walk_entry`].
pub open spec fn walk_spec(
    objs: Seq<(String, Vec<u8>)>,
    prefix: Seq<char>,
    fuel: int,
    items: Seq<(int, Seq<char>, Seq<char>)>,
    st: (Map<Seq<char>, u32>, Map<Seq<char>, u32>, int),
) -> (Map<Seq<char>, u32>, Map<Seq<char>, u32>, int)
    decreases fuel, items.len(), 1int,
{
    if items.len() == 0 {
        st
    } else {
        walk_spec(
            objs,
            prefix,
            fuel,
            items.drop_first(),
            walk_entry(objs, prefix, fuel, items[0], st),
        )
    }
}

/// Processing a list and then one more entry is the same as
/// processing the list with that entry appended.
pub proof fn lemma_walk_spec_snoc(
    objs: Seq<(String, Vec<u8>)>,
    prefix: Seq<char>,
    fuel: int,
    items: Seq<(int, Seq<char>, Seq<char>)>,
    x: (int, Seq<char>, Seq<char>),
    st: (Map<Seq<char>, u32>, Map<Seq<char>, u32>, int),
)
    ensures
        walk_spec(objs, prefix, fuel, items.push(x), st) == walk_entry(
            objs,
            prefix,
            fuel,
            x,
            walk_spec(objs, prefix, fuel, items, st),
        ),
    decreases items.len(),
{
    if items.len() == 0 {
        reveal_with_fuel(walk_spec, 2);
        assert(items.push(x).drop_first() =~= items);
        assert(items.push(x)[0] == x);
    } else {
        assert(items.push(x).drop_first() =~= items.drop_first().push(x));
        assert(items.push(x)[0] == items[0]);
        lemma_walk_spec_snoc(
            objs,
            prefix,
            fuel,
            items.drop_first(),
            x,
            walk_entry(objs, prefix, fuel, items[0], st),
        );
    }
}

impl Repo {
    /// The repository's internal consistency: a well-formed cache,
    /// and a load counter that the cache size bounds, since every
    /// load recorded one entry.
    pub open spec fn wf(&self) -> bool {
        &&& self.line_count_cache.wf()
        &&& self.blob_loads <= self.line_count_cache.entries@.len()
    }
}

/// Walks a list of tree entries: blobs contribute their line count
/// under their path (consulting and filling the cache), subtrees are
/// expanded with the path as prefix, and everything else, like any
/// unreadable or malformed entry, is skipped.
fn walk_items(
    items: &Vec<TreeItem>,
    repo: &mut Repo,
    path: &str,
    fuel: usize,
    out: &mut LineCountMap,
)
    requires
        old(repo).wf(),
        old(out).wf(),
    ensures
        final(repo).wf(),
        walk_keeps_store(*old(repo), *final(repo)),
        cache_preserved(*old(repo), *final(repo)),
        loads_match_cache_growth(*old(repo), *final(repo)),
        new_cache_entries_true(*old(repo), *final(repo)),
        final(out).wf(),
        ({
            let w = walk_spec(
                old(repo).objects@,
                path@,
                fuel as int,
                items_model(items@),
                (old(repo).line_count_cache@, old(out)@, old(repo).blob_loads as int),
            );
            &&& final(repo).line_count_cache@ == w.0
            &&& final(out)@ == w.1
            &&& final(repo).blob_loads as int == w.2
        }),
    decreases fuel,
{
    let ghost objs0 = old(repo).objects@;
    let ghost st0 = (old(repo).line_count_cache@, old(out)@, old(repo).blob_loads as int);
    let n = items.len();
    let mut i: usize = 0;
    proof {
        assert(items_model(items@).take(0) =~= Seq::<(int, Seq<char>, Seq<char>)>::empty());
    }
    while i < n
        invariant
            n == items@.len(),
            i <= n,
            repo.wf(),
            objs0 == old(repo).objects@,
            st0 == (old(repo).line_count_cache@, old(out)@, old(repo).blob_loads as int),
            walk_keeps_store(*old(repo), *repo),
            cache_preserved(*old(repo), *repo),
            loads_match_cache_growth(*old(repo), *repo),
            new_cache_entries_true(*old(repo), *repo),
            out.wf(),
            ({
                let w = walk_spec(objs0, path@, fuel as int, items_model(items@).take(i as int),
                st0);
                &&& repo.line_count_cache@ == w.0
                &&& out@ == w.1
                &&& repo.blob_loads as int == w.2
            }),
        decreases n - i,
    {
        let item = &items[i];
        let ghost m_it = items_model(items@)[i as int];
        let ghost w_pre = walk_spec(objs0, path@, fuel as int, items_model(items@).take(i as int),
        st0);
        proof {
            assert(m_it == (item.mode as int, item.filename@, item.oid@));
            assert(items_model(items@).take(i + 1) =~= items_model(items@).take(i as int).push(
                m_it,
            ));
            lemma_walk_spec_snoc(
                objs0,
                path@,
                fuel as int,
                items_model(items@).take(i as int),
                m_it,
                st0,
            );
        }
        let filename: String;
        if path.is_empty() {
            filename = clone_string(&item.filename);
        } else {
            let mut joined = string_from_str(path);
            crate::text::push_char(&mut joined, '/');
            crate::text::append_str(&mut joined, item.filename.as_str());
            filename = joined;
        }
        proof {
            assert(filename@ =~= join_path(path@, item.filename@));
        }
        let ghost repo_pre = *repo;
        let ghost out_pre = *out;
        match repo.get_from_cache(&item.oid) {
            Some(v) => {
                out.insert(filename, v);
                i = i + 1;
                continue ;
            },
            None => {},
        }
        let git_object = match GitObject::from_oid(repo, item.oid.as_str()) {
            Ok(v) => v,
            Err(_) => {
                proof {
                    assert(blob_line_count_at(objs0, item.oid@) is None);
                    assert(tree_child_items(objs0, item.oid@) is None);
                }
                i = i + 1;
                continue ;
            },
        };
        let parsed = match git_object.initialize_from_data() {
            Ok(v) => v,
            Err(_) => {
                proof {
                    assert(blob_line_count_at(objs0, item.oid@) is None);
                    assert(tree_child_items(objs0, item.oid@) is None);
                }
                i = i + 1;
                continue ;
            },
        };
        match parsed {
            GitObjectType::Blob(b) => {
                if !(b.data.len() < u32::MAX as usize) {
                    proof {
                        assert(blob_line_count_at(objs0, item.oid@) is None);
                        assert(tree_child_items(objs0, item.oid@) is None);
                    }
                    i = i + 1;
                    continue ;
                }
                proof {
                    assert(blob_line_count_at(objs0, item.oid@) is Some);
                }
                let amnt = b.line_amnt();
                let _prior = repo.add_to_cache(clone_string(&item.oid), amnt);
                let cache_len = repo.line_count_cache.entries.len();
                proof {
                    // The cache just grew, so the counter it bounds
                    // has room for one more.
                    assert(repo_pre.blob_loads < cache_len);
                }
                repo.blob_loads = repo.blob_loads + 1;
                out.insert(filename, amnt);
                proof {
                    assert(blob_line_count_at(repo.objects@, item.oid@) == Some(amnt as int));
                    assert forall|k: Seq<char>|
                        !old(repo).line_count_cache@.contains_key(k)
                            && #[trigger] repo.line_count_cache@.contains_key(k) implies
                        blob_line_count_at(repo.objects@, k) == Some(
                        repo.line_count_cache@[k] as int,
                    ) by {
                        if k != item.oid@ {
                            assert(repo_pre.line_count_cache@.contains_key(k));
                        }
                    }
                }
            },
            GitObjectType::Tree(t) => {
                proof {
                    assert(blob_line_count_at(objs0, item.oid@) is None);
                    assert(tree_child_items(objs0, item.oid@) matches Some(ms) && items_model(
                        t.items@,
                    ) == ms);
                }
                if fuel > 0 {
                    walk_items(&t.items, repo, filename.as_str(), fuel - 1, out);
                    proof {
                        assert forall|k: Seq<char>|
                            !old(repo).line_count_cache@.contains_key(k)
                                && #[trigger] repo.line_count_cache@.contains_key(k) implies
                            blob_line_count_at(repo.objects@, k) == Some(
                            repo.line_count_cache@[k] as int,
                        ) by {
                            if repo_pre.line_count_cache@.contains_key(k) {
                            }
                        }
                    }
                }
            },
            GitObjectType::Commit(_) => {
                proof {
                    assert(blob_line_count_at(objs0, item.oid@) is None);
                    assert(tree_child_items(objs0, item.oid@) is None);
                }
            },
            GitObjectType::Tag => {
                proof {
                    assert(blob_line_count_at(objs0, item.oid@) is None);
                    assert(tree_child_items(objs0, item.oid@) is None);
                }
            },
            GitObjectType::NotImplemented => {
                proof {
                    assert(blob_line_count_at(objs0, item.oid@) is None);
                    assert(tree_child_items(objs0, item.oid@) is None);
                }
            },
        }
        i = i + 1;
    }
    proof {
        assert(items_model(items@).take(n as int) =~= items_model(items@));
    }
}

impl TreeObject {
    /// Expands this tree into a table from path to line count.  The
    /// result, the cache and the load counter are exactly what
    /// [`walk_spec`] says for this tree's entries: each reachable
    /// regular-file blob appears under its slash-joined path with
    /// value one more than its newline count, a cached id is answered
    /// from the cache, a cache miss loads the blob once and records
    /// it under its id, and unreadable entries and unsupported kinds
    /// are skipped, never fatal.
    pub fn recurs_create_tree_line_count(&self, repo: &mut Repo, path: &str) -> (r: LineCountMap)
        requires
            old(repo).wf(),
        ensures
            final(repo).wf(),
            walk_keeps_store(*old(repo), *final(repo)),
            cache_preserved(*old(repo), *final(repo)),
            loads_match_cache_growth(*old(repo), *final(repo)),
            new_cache_entries_true(*old(repo), *final(repo)),
            r.wf(),
            ({
                let w = walk_spec(
                    old(repo).objects@,
                    path@,
                    usize::MAX as int,
                    items_model(self.items@),
                    (
                        old(repo).line_count_cache@,
                        Map::<Seq<char>, u32>::empty(),
                        old(repo).blob_loads as int,
                    ),
                );
                &&& final(repo).line_count_cache@ == w.0
                &&& r@ == w.1
                &&& final(repo).blob_loads as int == w.2
            }),
    {
        let mut out = LineCountMap::new();
        walk_items(&self.items, repo, path, usize::MAX, &mut out);
        out
    }
}

impl CommitObject {
    /// Loads and parses the commit with the given id.
    pub fn from_oid(repo: &Repo, oid: &str) -> (r: Result<Self, GitError>)
        ensures
            match r {
                Ok(c) => match assoc_data(repo.objects@, oid@) {
                    Some(comp) => match inflate_zlib_of(comp) {
                        Some(d) => match parse_header_spec(d) {
                            Some(h) => {
                                &&& h.0 == crate::objects::kind_commit_bytes()
                                &&& crate::objects::commit::commit_matches(
                                    c,
                                    crate::objects::lossy_utf8_of(h.2),
                                    h.1,
                                    oid@,
                                )
                            },
                            None => false,
                        },
                        None => false,
                    },
                    None => false,
                },
                Err(e) => {
                    &&& (e == GitError::ObjectNotFound <==> assoc_data(repo.objects@, oid@)
                        is None)
                    &&& (e == GitError::CorruptObject <==> (assoc_data(repo.objects@, oid@)
                        matches Some(comp) && inflate_zlib_of(comp) is None))
                    &&& (e == GitError::MalformedHeader <==> (assoc_data(repo.objects@, oid@)
                        matches Some(comp) && inflate_zlib_of(comp) matches Some(d)
                        && parse_header_spec(d) is None))
                    &&& (e == GitError::KindMismatch <==> (assoc_data(repo.objects@, oid@)
                        matches Some(comp) && inflate_zlib_of(comp) matches Some(d)
                        && parse_header_spec(d) matches Some(h) && h.0
                        != crate::objects::kind_commit_bytes()))
                    &&& (e == GitError::MalformedCommit <==> (assoc_data(repo.objects@, oid@)
                        matches Some(comp) && inflate_zlib_of(comp) matches Some(d)
                        && parse_header_spec(d) matches Some(h) && h.0
                        == crate::objects::kind_commit_bytes()
                        && crate::objects::commit::commit_lines_spec(
                        crate::objects::lossy_utf8_of(h.2),
                    ) is None))
                    &&& (e == GitError::MalformedAuthorLine <==> (assoc_data(repo.objects@, oid@)
                        matches Some(comp) && inflate_zlib_of(comp) matches Some(d)
                        && parse_header_spec(d) matches Some(h) && h.0
                        == crate::objects::kind_commit_bytes()
                        && crate::objects::commit::author_line_failure(
                        crate::objects::lossy_utf8_of(h.2),
                    )))
                    &&& (e == GitError::ObjectNotFound || e == GitError::CorruptObject || e
                        == GitError::MalformedHeader || e == GitError::KindMismatch || e
                        == GitError::MalformedCommit || e == GitError::MalformedAuthorLine)
                },
            },
    {
        let git_object = match GitObject::from_oid(repo, oid) {
            Ok(v) => v,
            Err(e) => { return Err(e) },
        };
        let c = match CommitObject::from_git_object(&git_object) {
            Ok(c) => c,
            Err(e) => { return Err(e) },
        };
        Ok(*c)
    }

    /// Loads and parses the tree this commit points at.
    pub fn get_tree(&self, repo: &Repo) -> (r: Result<TreeObject, GitError>)
        ensures
            match r {
                Ok(t) => match assoc_data(repo.objects@, self.tree@) {
                    Some(comp) => match inflate_zlib_of(comp) {
                        Some(d) => match parse_header_spec(d) {
                            Some(h) => {
                                &&& h.0 == kind_tree_bytes()
                                &&& match tree_items_spec(h.2, 0) {
                                    Some(ms) => {
                                        &&& t.items@.len() == ms.len()
                                        &&& forall|i: int|
                                            0 <= i < ms.len() ==> item_matches(
                                                #[trigger] t.items@[i],
                                                ms[i],
                                            )
                                    },
                                    None => false,
                                }
                            },
                            None => false,
                        },
                        None => false,
                    },
                    None => false,
                },
                Err(e) => {
                    &&& (e == GitError::ObjectNotFound <==> assoc_data(
                        repo.objects@,
                        self.tree@,
                    ) is None)
                    &&& (e == GitError::CorruptObject <==> (assoc_data(repo.objects@, self.tree@)
                        matches Some(comp) && inflate_zlib_of(comp) is None))
                    &&& (e == GitError::MalformedHeader <==> (assoc_data(
                        repo.objects@,
                        self.tree@,
                    ) matches Some(comp) && inflate_zlib_of(comp) matches Some(d)
                        && parse_header_spec(d) is None))
                    &&& (e == GitError::KindMismatch <==> (assoc_data(repo.objects@, self.tree@)
                        matches Some(comp) && inflate_zlib_of(comp) matches Some(d)
                        && parse_header_spec(d) matches Some(h) && h.0 != kind_tree_bytes()))
                    &&& (e == GitError::MalformedTree <==> (assoc_data(repo.objects@, self.tree@)
                        matches Some(comp) && inflate_zlib_of(comp) matches Some(d)
                        && parse_header_spec(d) matches Some(h) && h.0 == kind_tree_bytes()
                        && tree_items_spec(h.2, 0) is None))
                    &&& (e == GitError::ObjectNotFound || e == GitError::CorruptObject || e
                        == GitError::MalformedHeader || e == GitError::KindMismatch || e
                        == GitError::MalformedTree)
                },
            },
    {
        TreeObject::from_oid(repo, self.tree.as_str())
    }
}

impl TreeObject {
    /// Loads and parses the tree with the given id.
    pub fn from_oid(repo: &Repo, oid: &str) -> (r: Result<Self, GitError>)
        ensures
            match r {
                Ok(t) => match assoc_data(repo.objects@, oid@) {
                    Some(comp) => match inflate_zlib_of(comp) {
                        Some(d) => match parse_header_spec(d) {
                            Some(h) => {
                                &&& h.0 == kind_tree_bytes()
                                &&& match tree_items_spec(h.2, 0) {
                                    Some(ms) => {
                                        &&& t.items@.len() == ms.len()
                                        &&& forall|i: int|
                                            0 <= i < ms.len() ==> item_matches(
                                                #[trigger] t.items@[i],
                                                ms[i],
                                            )
                                    },
                                    None => false,
                                }
                                &&& t.oid@ == oid@
                            },
                            None => false,
                        },
                        None => false,
                    },
                    None => false,
                },
                Err(e) => {
                    &&& (e == GitError::ObjectNotFound <==> assoc_data(repo.objects@, oid@)
                        is None)
                    &&& (e == GitError::CorruptObject <==> (assoc_data(repo.objects@, oid@)
                        matches Some(comp) && inflate_zlib_of(comp) is None))
                    &&& (e == GitError::MalformedHeader <==> (assoc_data(repo.objects@, oid@)
                        matches Some(comp) && inflate_zlib_of(comp) matches Some(d)
                        && parse_header_spec(d) is None))
                    &&& (e == GitError::KindMismatch <==> (assoc_data(repo.objects@, oid@)
                        matches Some(comp) && inflate_zlib_of(comp) matches Some(d)
                        && parse_header_spec(d) matches Some(h) && h.0 != kind_tree_bytes()))
                    &&& (e == GitError::MalformedTree <==> (assoc_data(repo.objects@, oid@)
                        matches Some(comp) && inflate_zlib_of(comp) matches Some(d)
                        && parse_header_spec(d) matches Some(h) && h.0 == kind_tree_bytes()
                        && tree_items_spec(h.2, 0) is None))
                    &&& (e == GitError::ObjectNotFound || e == GitError::CorruptObject || e
                        == GitError::MalformedHeader || e == GitError::KindMismatch || e
                        == GitError::MalformedTree)
                },
            },
    {
        let git_object = match GitObject::from_oid(repo, oid) {
            Ok(v) => v,
            Err(e) => { return Err(e) },
        };
        let t = match TreeObject::from_git_object(&git_object) {
            Ok(t) => t,
            Err(e) => { return Err(e) },
        };
        Ok(*t)
    }
}

/// Clones a byte vector, keeping its contents.
pub fn clone_bytes(v: &Vec<u8>) -> (r: Vec<u8>)
    ensures
        r@ == v@,
{
    v.clone()
}

/// Compares a string slice against a string by their characters.
pub fn str_eq_string(a: &str, b: &String) -> (r: bool)
    ensures
        r == (a@ == b@),
{
    let bs = b.as_str();
    let ca = crate::text::str_to_chars(a);
    let cb = crate::text::str_to_chars(bs);
    chars_eq(ca.as_slice(), cb.as_slice())
}

/// Compares two character slices for equality.
pub fn chars_eq(a: &[char], b: &[char]) -> (r: bool)
    ensures
        r == (a@ == b@),
{
    if a.len() != b.len() {
        proof {
            assert(a@ != b@);
        }
        return false;
    }
    let n = a.len();
    let mut i: usize = 0;
    while i < n
        invariant
            i <= n == a@.len() == b@.len(),
            forall|j: int| 0 <= j < i ==> a@[j] == b@[j],
        decreases n - i,
    {
        if a[i] != b[i] {
            proof {
                assert(a@ != b@);
            }
            return false;
        }
        i = i + 1;
    }
    proof {
        assert(a@ =~= b@);
    }
    true
}

impl GitObject {
    /// Looks an object up by id in the repository snapshot.
    pub fn from_oid(repo: &Repo, oid: &str) -> (r: Result<Self, GitError>)
        ensures
            match r {
                Ok(g) => {
                    &&& assoc_data(repo.objects@, oid@) == Some(g.data@)
                    &&& g.oid@ == oid@
                },
                Err(e) => {
                    &&& assoc_data(repo.objects@, oid@) is None
                    &&& e == GitError::ObjectNotFound
                },
            },
    {
        let key = string_from_str(oid);
        let data = match repo.get_object_data(&key) {
            Ok(v) => v,
            Err(e) => { return Err(e) },
        };
        Ok(GitObject::new(key, data))
    }
}

/// Copies a string slice into an owned string.
pub fn string_from_str(s: &str) -> (r: String)
    ensures
        r@ == s@,
{
    s.to_owned()
}

} // verus!

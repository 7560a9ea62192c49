//! Header, blob, commit and tree parsing against concrete objects.

use git_stats::errors::GitError;
use git_stats::objects::blob::BlobObject;
use git_stats::objects::commit::{CommitAuthor, CommitObject};
use git_stats::objects::tree::TreeObject;
use git_stats::objects::{get_type_size_and_data, parse_header, GitObject, GitObjectType};

fn compress(data: &[u8]) -> Vec<u8> {
    miniz_oxide::deflate::compress_to_vec_zlib(data, 6)
}

fn loose(kind: &str, payload: &[u8]) -> Vec<u8> {
    let mut raw = format!("{} {}\0", kind, payload.len()).into_bytes();
    raw.extend_from_slice(payload);
    compress(&raw)
}

#[test]
fn header_parses_kind_size_and_payload() {
    let (kind, size, payload) = parse_header(b"commit 999\0somedata").unwrap();
    assert_eq!(kind, b"commit".to_vec());
    assert_eq!(size, 999);
    assert_eq!(payload, b"somedata".to_vec());
}

#[test]
fn header_char_variant_matches() {
    let (kind, size, payload) = get_type_size_and_data("commit 999\0somedata").unwrap();
    assert_eq!(kind, "commit");
    assert_eq!(size, 999);
    assert_eq!(payload, b"somedata".to_vec());
}

#[test]
fn header_round_trip_recovers_triple() {
    let payload = b"some\npayload\0with a nul";
    let built = format!("blob {}\0", payload.len());
    let mut raw = built.into_bytes();
    raw.extend_from_slice(payload);
    let (kind, size, out) = parse_header(&raw).unwrap();
    assert_eq!(kind, b"blob".to_vec());
    assert_eq!(size as usize, payload.len());
    assert_eq!(out, payload.to_vec());
}

#[test]
fn header_without_nul_is_malformed() {
    assert_eq!(parse_header(b"commit 999"), Err(GitError::MalformedHeader));
}

#[test]
fn header_with_bad_size_is_malformed() {
    assert_eq!(parse_header(b"commit 9x9\0data"), Err(GitError::MalformedHeader));
    assert_eq!(parse_header(b"commit\0data"), Err(GitError::MalformedHeader));
    assert_eq!(parse_header(b"commit \0data"), Err(GitError::MalformedHeader));
}

#[test]
fn blob_line_counts() {
    let empty = BlobObject::new(b"".to_vec(), 0, "x".to_string());
    assert_eq!(empty.line_amnt(), 1);
    let trailing = BlobObject::new(b"a\nb\n".to_vec(), 4, "x".to_string());
    assert_eq!(trailing.line_amnt(), 3);
    let open_ended = BlobObject::new(b"a\nb".to_vec(), 3, "x".to_string());
    assert_eq!(open_ended.line_amnt(), 2);
}

#[test]
fn blob_from_git_object_takes_payload_verbatim() {
    let obj = GitObject::new("someoid".to_string(), loose("blob", b"a\nb"));
    let blob = BlobObject::from_git_object(&obj).unwrap();
    assert_eq!(blob.data, b"a\nb".to_vec());
    assert_eq!(blob.size, 3);
    assert_eq!(blob.oid, "someoid");
    assert_eq!(blob.to_string(), "a\nb");
}

#[test]
fn blob_parser_rejects_other_kinds() {
    let obj = GitObject::new("x".to_string(), loose("commit", b"whatever"));
    assert_eq!(BlobObject::from_git_object(&obj).err(), Some(GitError::KindMismatch));
}

#[test]
fn corrupt_stream_is_reported() {
    let obj = GitObject::new("x".to_string(), b"not zlib at all".to_vec());
    assert_eq!(obj.get_data().err(), Some(GitError::CorruptObject));
}

#[test]
fn hash_of_data_is_sha1_hex() {
    let payload = b"blob 0\0";
    let obj = GitObject::new("x".to_string(), compress(payload));
    let expected = sha1_smol::Sha1::from(&payload[..]).digest().to_string();
    assert_eq!(obj.get_hash().unwrap(), expected);
}

#[test]
fn tree_single_record_parses() {
    let mut payload = b"100644 file.txt\0".to_vec();
    let oid_bytes: Vec<u8> = (0u8..20u8).collect();
    payload.extend_from_slice(&oid_bytes);
    let obj = GitObject::new("treeoid".to_string(), loose("tree", &payload));
    let tree = TreeObject::from_git_object(&obj).unwrap();
    assert_eq!(tree.items.len(), 1);
    assert_eq!(tree.items[0].mode, 100644);
    assert_eq!(tree.items[0].filename, "file.txt");
    let expected: String = oid_bytes.iter().map(|b| format!("{:02x}", b)).collect();
    assert_eq!(tree.items[0].oid, expected);
}

#[test]
fn tree_with_trailing_garbage_is_malformed() {
    let mut payload = b"100644 file.txt\0".to_vec();
    payload.extend_from_slice(&[7u8; 20]);
    payload.push(b'x');
    let obj = GitObject::new("treeoid".to_string(), loose("tree", &payload));
    assert_eq!(TreeObject::from_git_object(&obj).err(), Some(GitError::MalformedTree));
}

#[test]
fn empty_tree_is_valid() {
    let obj = GitObject::new("treeoid".to_string(), loose("tree", b""));
    let tree = TreeObject::from_git_object(&obj).unwrap();
    assert_eq!(tree.items.len(), 0);
}

#[test]
fn commit_parses_fixed_order_lines() {
    let text = "tree some_big_hash\nparent some_big_hash\nauthor MT <some@email.tld> 999999 -0123\ncommitter MT <some@email.tld> 999999 -0123\n\nSome message\n";
    let commit = CommitObject::from_str(text, 9999, "some_sha1_hash".to_string()).unwrap();
    assert_eq!(commit.tree, "some_big_hash");
    assert_eq!(commit.parent.as_deref(), Some("some_big_hash"));
    assert_eq!(commit.author.name, "MT");
    assert_eq!(commit.author.email.as_deref(), Some("some@email.tld"));
    assert_eq!(commit.author.timestamp, 999999);
    assert_eq!(commit.author.kind, "-0123");
    assert_eq!(commit.committer.name, "MT");
    assert_eq!(commit.message, "Some message\n");
    assert_eq!(commit.size, 9999);
    assert_eq!(commit.oid, "some_sha1_hash");
}

#[test]
fn commit_round_trip_through_grammar() {
    let tree = "0123456789abcdef0123456789abcdef01234567";
    let parent = "fedcba9876543210fedcba9876543210fedcba98";
    let message = "Subject line\n\nBody with details.\n";
    let text = format!(
        "tree {}\nparent {}\nauthor Ada L <ada@example.org> 1700000000 +0200\ncommitter Grace H <grace@example.org> 1700000100 -0130\n\n{}",
        tree, parent, message
    );
    let commit = CommitObject::from_str(&text, 42, "oid".to_string()).unwrap();
    assert_eq!(commit.tree, tree);
    assert_eq!(commit.parent.as_deref(), Some(parent));
    assert_eq!(commit.author.name, "Ada L");
    assert_eq!(commit.author.email.as_deref(), Some("ada@example.org"));
    assert_eq!(commit.author.timestamp, 1700000000);
    assert_eq!(commit.author.kind, "+0200");
    assert_eq!(commit.committer.name, "Grace H");
    assert_eq!(commit.committer.email.as_deref(), Some("grace@example.org"));
    assert_eq!(commit.committer.timestamp, 1700000100);
    assert_eq!(commit.committer.kind, "-0130");
    assert_eq!(commit.message, message);
}

#[test]
fn commit_without_parent_is_root() {
    let text = "tree t\nauthor A 1 +0000\ncommitter B 2 +0000\n\nmsg";
    let commit = CommitObject::from_str(text, 1, "o".to_string()).unwrap();
    assert_eq!(commit.parent, None);
    assert_eq!(commit.author.name, "A");
    assert_eq!(commit.author.email, None);
}

#[test]
fn commit_keeps_first_parent_only() {
    let text = "tree t\nparent p1\nparent p2\nauthor A 1 +0000\ncommitter B 2 +0000\n\nmsg";
    let commit = CommitObject::from_str(text, 1, "o".to_string()).unwrap();
    assert_eq!(commit.parent.as_deref(), Some("p1"));
}

#[test]
fn commit_missing_tree_is_malformed() {
    let text = "author A 1 +0000\ncommitter B 2 +0000\n\nmsg";
    assert_eq!(
        CommitObject::from_str(text, 1, "o".to_string()).err(),
        Some(GitError::MalformedCommit)
    );
}

#[test]
fn commit_with_bad_author_reports_author_error() {
    let text = "tree t\nauthor nonsense\ncommitter B 2 +0000\n\nmsg";
    assert_eq!(
        CommitObject::from_str(text, 1, "o".to_string()).err(),
        Some(GitError::MalformedAuthorLine)
    );
}

#[test]
fn author_line_parses() {
    let author = CommitAuthor::from_string("MT <some@email.tld> 999999 -0123").unwrap();
    assert_eq!(author.name, "MT");
    assert_eq!(author.email.as_deref(), Some("some@email.tld"));
    assert_eq!(author.timestamp, 999999);
    assert_eq!(author.kind, "-0123");
}

#[test]
fn author_without_email_parses() {
    let author = CommitAuthor::from_string("Some Name 123 +0500").unwrap();
    assert_eq!(author.name, "Some Name");
    assert_eq!(author.email, None);
    assert_eq!(author.timestamp, 123);
    assert_eq!(author.kind, "+0500");
}

#[test]
fn author_with_bad_offset_is_malformed() {
    assert_eq!(
        CommitAuthor::from_string("MT <e> 999999 0123").err(),
        Some(GitError::MalformedAuthorLine)
    );
    assert_eq!(
        CommitAuthor::from_string("MT <e> 999999 -012").err(),
        Some(GitError::MalformedAuthorLine)
    );
    assert_eq!(CommitAuthor::from_string("nonsense").err(), Some(GitError::MalformedAuthorLine));
}

#[test]
fn initialize_dispatches_on_kind() {
    let commit_text = b"tree t\nauthor A 1 +0000\ncommitter B 2 +0000\n\nmsg";
    let obj = GitObject::new("c".to_string(), loose("commit", commit_text));
    match obj.initialize_from_data().unwrap() {
        GitObjectType::Commit(c) => assert_eq!(c.tree, "t"),
        _ => panic!("expected a commit"),
    }
    let obj = GitObject::new("b".to_string(), loose("blob", b"x\n"));
    match obj.initialize_from_data().unwrap() {
        GitObjectType::Blob(b) => assert_eq!(b.data, b"x\n".to_vec()),
        _ => panic!("expected a blob"),
    }
    let obj = GitObject::new("t".to_string(), loose("tag", b"whatever"));
    assert!(matches!(obj.initialize_from_data().unwrap(), GitObjectType::Tag));
    let obj = GitObject::new("u".to_string(), loose("mystery", b"whatever"));
    assert!(matches!(obj.initialize_from_data().unwrap(), GitObjectType::NotImplemented));
}

#[test]
fn data_as_string_is_lossy_decode() {
    let obj = GitObject::new("x".to_string(), compress(b"blob 2\0hi"));
    assert_eq!(obj.get_data_as_string().unwrap(), "blob 2\0hi");
}

#[test]
fn commit_serialization_round_trips() {
    let author = CommitAuthor {
        name: "Ada L".to_string(),
        email: Some("ada@example.org".to_string()),
        timestamp: 1700000000,
        kind: "+0200".to_string(),
    };
    let committer = CommitAuthor {
        name: "No Email".to_string(),
        email: None,
        timestamp: 5,
        kind: "-0000".to_string(),
    };
    let commit = CommitObject {
        tree: "t".repeat(40),
        parent: Some("p".repeat(40)),
        author,
        committer,
        size: 7,
        oid: "o".to_string(),
        message: "hello\nworld\n".to_string(),
    };
    let text = commit.serialize();
    let parsed = CommitObject::from_str(&text, 7, "o".to_string()).unwrap();
    assert_eq!(parsed.tree, commit.tree);
    assert_eq!(parsed.parent, commit.parent);
    assert_eq!(parsed.author.name, commit.author.name);
    assert_eq!(parsed.author.email, commit.author.email);
    assert_eq!(parsed.author.timestamp, commit.author.timestamp);
    assert_eq!(parsed.author.kind, commit.author.kind);
    assert_eq!(parsed.committer.name, commit.committer.name);
    assert_eq!(parsed.committer.email, commit.committer.email);
    assert_eq!(parsed.committer.timestamp, commit.committer.timestamp);
    assert_eq!(parsed.committer.kind, commit.committer.kind);
    assert_eq!(parsed.message, commit.message);
}

#[test]
fn author_serialization_round_trips() {
    let author = CommitAuthor {
        name: "Grace H".to_string(),
        email: Some("grace@example.org".to_string()),
        timestamp: 42,
        kind: "-0130".to_string(),
    };
    let text = author.serialize();
    assert_eq!(text, "Grace H <grace@example.org> 42 -0130");
    let parsed = CommitAuthor::from_string(&text).unwrap();
    assert_eq!(parsed.name, author.name);
    assert_eq!(parsed.email, author.email);
    assert_eq!(parsed.timestamp, author.timestamp);
    assert_eq!(parsed.kind, author.kind);
}

#[test]
fn number_filename_and_data_split() {
    let (num, filename, data) =
        git_stats::objects::tree::get_number_filename_and_data("999 filename\0some_data").unwrap();
    assert_eq!(num, 999);
    assert_eq!(filename, "filename");
    assert_eq!(data, b"some_data".to_vec());
}

#[test]
fn number_filename_without_nul_is_malformed() {
    assert_eq!(
        git_stats::objects::tree::get_number_filename_and_data("999 filename").err(),
        Some(GitError::MalformedTree)
    );
}

use git_objects::bytes::{append, equal, find};
use git_objects::commands::{cat_file, commit, commit_tree, hash_object, init, ls_tree, write_tree};
use git_objects::error::StoreError;
use git_objects::object::{write_framed, Kind, Object};
use git_objects::tree::TreeEntry;
use git_objects::tree_read::read_tree;
use git_objects::work_tree::{WorkEntry, WorkNode};

fn stored(kind: Kind, content: &[u8]) -> Vec<u8> {
    write_framed(kind, content).unwrap().1
}

fn file(name: &str, content: &[u8]) -> WorkEntry {
    WorkEntry { name: name.as_bytes().to_vec(), node: WorkNode::File { mode: 0o644, content: content.to_vec() } }
}

fn entry(mode: &[u8], name: &[u8]) -> TreeEntry {
    let mut digest = [0u8; 20];
    digest[0] = 0x45;
    digest[19] = 0x57;
    TreeEntry { mode: mode.to_vec(), name: name.to_vec(), digest }
}

#[test]
fn cat_file_prints_the_content_of_a_blob() {
    assert_eq!(cat_file::invoke(true, &stored(Kind::Blob, b"hi\n")).unwrap(), b"hi\n".to_vec());
    assert_eq!(cat_file::invoke(true, &stored(Kind::Blob, b"")).unwrap(), Vec::<u8>::new());
}

#[test]
fn cat_file_needs_pretty_print() {
    assert_eq!(cat_file::invoke(false, &stored(Kind::Blob, b"hi\n")).unwrap_err(), StoreError::UnsupportedOperation);
    assert_eq!(cat_file::invoke(false, b"garbage").unwrap_err(), StoreError::UnsupportedOperation);
}

#[test]
fn cat_file_prints_blobs_only() {
    assert_eq!(cat_file::invoke(true, &stored(Kind::Tree, b"")).unwrap_err(), StoreError::UnsupportedOperation);
    assert_eq!(cat_file::invoke(true, &stored(Kind::Commit, b"tree x\n")).unwrap_err(), StoreError::UnsupportedOperation);
}

#[test]
fn cat_file_passes_on_the_errors_of_reading() {
    assert_eq!(cat_file::invoke(true, b"garbage").unwrap_err(), StoreError::Io);
    let mut sink = git_objects::codec::HashWriter::new();
    sink.write(b"blub 1\0x");
    let (_, unknown) = sink.finish().unwrap();
    assert_eq!(cat_file::invoke(true, &unknown).unwrap_err(), StoreError::UnknownKind);
}

#[test]
fn hash_object_names_without_storing() {
    let hashed = hash_object::invoke(false, b"hi\n").unwrap();
    assert_eq!(hashed.name, "45b983be36b73c0788dc9cbcb76cbb80fc7bb057");
    assert!(hashed.stored.is_none());
}

#[test]
fn hash_object_stores_where_asked() {
    let hashed = hash_object::invoke(true, b"hi\n").unwrap();
    assert_eq!(hashed.name, "45b983be36b73c0788dc9cbcb76cbb80fc7bb057");
    let ready = hashed.stored.unwrap();
    assert_eq!(ready.name, hashed.name);
    assert_eq!(ready.path.dir, ".git/objects/45/");
    assert_eq!(ready.path.file, ".git/objects/45/b983be36b73c0788dc9cbcb76cbb80fc7bb057");
    assert_eq!(cat_file::invoke(true, &ready.bytes).unwrap(), b"hi\n".to_vec());
}

#[test]
fn ls_tree_prints_names() {
    assert_eq!(ls_tree::invoke(true, &entry(b"100644", b"a.txt"), None).unwrap(), "a.txt");
    assert_eq!(ls_tree::invoke(true, &entry(b"\xff", b"a b"), Some(Kind::Tree)).unwrap(), "a b");
    assert_eq!(ls_tree::invoke(true, &entry(b"100644", b"\xff"), None).unwrap_err(), StoreError::CorruptEntry);
}

#[test]
fn ls_tree_prints_long_lines() {
    assert_eq!(
        ls_tree::invoke(false, &entry(b"100644", b"a.txt"), Some(Kind::Blob)).unwrap(),
        "100644 blob 4500000000000000000000000000000000000057    a.txt"
    );
    assert_eq!(
        ls_tree::invoke(false, &entry(b"40000", b"sub dir"), Some(Kind::Tree)).unwrap(),
        "040000 tree 4500000000000000000000000000000000000057    sub dir"
    );
    assert_eq!(
        ls_tree::invoke(false, &entry(b"", b""), Some(Kind::Commit)).unwrap(),
        "000000 commit 4500000000000000000000000000000000000057    "
    );
    assert_eq!(
        ls_tree::invoke(false, &entry(b"1234567", b"n"), Some(Kind::Blob)).unwrap(),
        "1234567 blob 4500000000000000000000000000000000000057    n"
    );
    assert_eq!(
        ls_tree::invoke(false, &entry("\u{e9}\u{e9}".as_bytes(), "\u{e9}".as_bytes()), Some(Kind::Blob)).unwrap(),
        "0000\u{e9}\u{e9} blob 4500000000000000000000000000000000000057    \u{e9}"
    );
}

#[test]
fn ls_tree_long_line_needs_the_kind_and_text() {
    assert_eq!(ls_tree::invoke(false, &entry(b"100644", b"a"), None).unwrap_err(), StoreError::InvalidArgument);
    assert_eq!(ls_tree::invoke(false, &entry(b"\xff", b"\xff"), None).unwrap_err(), StoreError::InvalidArgument);
    assert_eq!(ls_tree::invoke(false, &entry(b"\xff", b"a"), Some(Kind::Blob)).unwrap_err(), StoreError::CorruptEntry);
    assert_eq!(ls_tree::invoke(false, &entry(b"100644", b"\xc3"), Some(Kind::Blob)).unwrap_err(), StoreError::CorruptEntry);
}

#[test]
fn init_lays_out_a_store() {
    let layout = init::invoke();
    assert_eq!(layout.dirs, vec![".git", ".git/objects", ".git/refs"]);
    assert_eq!(layout.head_path, ".git/HEAD");
    assert_eq!(layout.head, "ref: refs/heads/main\n");
    assert_eq!(layout.report, "Initialized git directory");
}

#[test]
fn write_tree_prints_the_name_of_the_root() {
    let snapshot = write_tree::invoke(&vec![file("a.txt", b"hi\n")]).unwrap();
    assert_eq!(snapshot.line, Some("0d8a474fc67971fb3dd7616e26323d3066442555".to_string()));
    assert_eq!(snapshot.tree.objects.len(), 2);
    let nothing = write_tree::invoke(&Vec::new()).unwrap();
    assert_eq!(nothing.line, None);
    assert_eq!(nothing.tree.root, None);
}

#[test]
fn commit_tree_prints_the_name_of_the_commit() {
    let tree = "0d8a474fc67971fb3dd7616e26323d3066442555".to_string();
    let made = commit_tree::invoke(None, "init".to_string(), tree).unwrap();
    assert_eq!(made.name, "c2e8afe26ce2e2401904b6c14a9571f6ed38b4d1");
    assert_eq!(
        commit_tree::invoke(None, "init".to_string(), "0d8a".to_string()).unwrap_err(),
        StoreError::InvalidArgument
    );
}

#[test]
fn commit_takes_the_snapshot_and_commits_it() {
    let plan = commit::invoke(None, "init".to_string(), &vec![file("a.txt", b"hi\n")]).unwrap();
    assert_eq!(plan.objects.len(), 2);
    assert_eq!(plan.objects[1].name, "0d8a474fc67971fb3dd7616e26323d3066442555");
    assert_eq!(plan.commit.name, "c2e8afe26ce2e2401904b6c14a9571f6ed38b4d1");
    assert_eq!(plan.report, "HEAD is now at c2e8afe26ce2e2401904b6c14a9571f6ed38b4d1");
    let parent = Some(plan.commit.name.clone());
    let next = commit::invoke(parent, "second".to_string(), &vec![file("a.txt", b"hi\n")]).unwrap();
    assert_eq!(next.commit.name, "2211fe90b23492a1ca7dbe2f55a1a748736f6ae1");
}

#[test]
fn commit_of_nothing_is_not_found() {
    assert_eq!(commit::invoke(None, "m".to_string(), &Vec::new()).unwrap_err(), StoreError::NotFound);
    let bad_parent = Some("not a name".to_string());
    assert_eq!(commit::invoke(bad_parent.clone(), "m".to_string(), &Vec::new()).unwrap_err(), StoreError::NotFound);
    assert_eq!(
        commit::invoke(bad_parent, "m".to_string(), &vec![file("a", b"")]).unwrap_err(),
        StoreError::InvalidArgument
    );
}

#[test]
fn store_a_file_snapshot_it_and_commit_it() {
    let layout = init::invoke();
    assert_eq!(layout.head, "ref: refs/heads/main\n");

    let hashed = hash_object::invoke(true, b"hi\n").unwrap();
    assert_eq!(hashed.name, "45b983be36b73c0788dc9cbcb76cbb80fc7bb057");

    let snapshot = write_tree::invoke(&vec![file("a.txt", b"hi\n")]).unwrap();
    let root = snapshot.line.unwrap();
    let tree = Object::read(&snapshot.tree.objects.last().unwrap().bytes).unwrap();
    assert_eq!(tree.kind, Kind::Tree);
    let entries = read_tree(&tree.content).unwrap();
    assert_eq!(entries.len(), 1);
    assert_eq!(entries[0].mode, b"100644".to_vec());
    assert_eq!(entries[0].name, b"a.txt".to_vec());
    assert_eq!(
        ls_tree::invoke(false, &entries[0], Some(Kind::Blob)).unwrap(),
        "100644 blob 45b983be36b73c0788dc9cbcb76cbb80fc7bb057    a.txt"
    );

    let made = commit_tree::invoke(None, "init".to_string(), root.clone()).unwrap();
    let commit = Object::read(&made.bytes).unwrap();
    assert_eq!(commit.kind, Kind::Commit);
    let text = String::from_utf8(commit.content).unwrap();
    assert!(text.starts_with(&format!("tree {}\n", root)));
    assert!(text.lines().all(|line| !line.starts_with("parent")));
}

#[test]
fn error_messages_differ() {
    let all = [
        StoreError::NotFound,
        StoreError::CorruptHeader,
        StoreError::CorruptEntry,
        StoreError::UnknownKind,
        StoreError::UnsupportedOperation,
        StoreError::Io,
        StoreError::InvalidArgument,
    ];
    for (i, a) in all.iter().enumerate() {
        assert!(!a.message().is_empty());
        for b in &all[i + 1..] {
            assert_ne!(a, b);
            assert_ne!(a.message(), b.message());
        }
    }
    assert_eq!(StoreError::NotFound.message(), "not found");
    assert_eq!(StoreError::InvalidArgument.message(), "invalid argument");
}

#[test]
fn find_gives_the_first_or_the_length() {
    assert_eq!(find(b"a b c", b' '), 1);
    assert_eq!(find(b"abc", b' '), 3);
    assert_eq!(find(b"", 0), 0);
    assert_eq!(find(b"\0\0", 0), 0);
}

#[test]
fn append_and_equal_on_bytes() {
    let mut out = b"ab".to_vec();
    append(&mut out, b"cd");
    append(&mut out, b"");
    assert_eq!(out, b"abcd".to_vec());
    assert!(equal(&out, b"abcd"));
    assert!(!equal(&out, b"abce"));
    assert!(!equal(&out, b"abc"));
    assert!(equal(b"", b""));
}

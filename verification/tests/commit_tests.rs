use git_objects::commit::{commit_record, commit_tree_for, commit_tree_signed, write_decimal_text, Signature};
use git_objects::error::StoreError;
use git_objects::object::{Kind, Object};
use git_objects::refs::{head_ref_path, new_head, trim, whitespace};

const TREE: &str = "0d8a474fc67971fb3dd7616e26323d3066442555";
const FIRST: &str = "c2e8afe26ce2e2401904b6c14a9571f6ed38b4d1";

fn someone() -> Signature {
    Signature { identity: "A U Thor <author@example.org>".to_string(), seconds: 0, zone: "-0730".to_string() }
}

#[test]
fn record_without_parent() {
    let record = commit_record(&None, "init", TREE, &Signature::baseline());
    assert_eq!(
        record,
        "tree 0d8a474fc67971fb3dd7616e26323d3066442555\n\
         author Xiezk <you@example.com> 1715157556 +0000\n\
         committer Xiezk <you@example.com> 1715157556 +0000\n\
         \n\
         init\n"
    );
    assert!(!record.contains("parent"));
}

#[test]
fn record_with_parent() {
    let record = commit_record(&Some(FIRST.to_string()), "second\n\nbody", TREE, &someone());
    assert_eq!(
        record,
        "tree 0d8a474fc67971fb3dd7616e26323d3066442555\n\
         parent c2e8afe26ce2e2401904b6c14a9571f6ed38b4d1\n\
         author A U Thor <author@example.org> 0 -0730\n\
         committer A U Thor <author@example.org> 0 -0730\n\
         \n\
         second\n\nbody\n"
    );
}

#[test]
fn signature_is_identity_seconds_zone() {
    let mut out = "author ".to_string();
    Signature { identity: "N <n@x>".to_string(), seconds: 18446744073709551615, zone: "+0100".to_string() }
        .write_to(&mut out);
    assert_eq!(out, "author N <n@x> 18446744073709551615 +0100");
    let baseline = Signature::baseline();
    assert_eq!(baseline.identity, "Xiezk <you@example.com>");
    assert_eq!(baseline.seconds, 1715157556);
    assert_eq!(baseline.zone, "+0000");
}

#[test]
fn decimal_text_of_numbers() {
    let mut out = String::new();
    for n in [0u64, 7, 10, 99, 100, 1715157556] {
        write_decimal_text(&mut out, n);
        out.push(' ');
    }
    assert_eq!(out, "0 7 10 99 100 1715157556 ");
}

#[test]
fn commit_of_a_tree_without_parent() {
    let ready = commit_tree_for(None, "init".to_string(), TREE.to_string()).unwrap();
    assert_eq!(ready.name, FIRST);
    assert_eq!(ready.path.file, ".git/objects/c2/e8afe26ce2e2401904b6c14a9571f6ed38b4d1");
    let commit = Object::read(&ready.bytes).unwrap();
    assert_eq!(commit.kind, Kind::Commit);
    assert_eq!(commit.size(), 151);
    let text = String::from_utf8(commit.content).unwrap();
    assert!(text.starts_with("tree 0d8a474fc67971fb3dd7616e26323d3066442555\n"));
    assert!(!text.contains("parent"));
    assert!(text.ends_with("\n\ninit\n"));
}

#[test]
fn commit_of_a_tree_with_parent() {
    let ready = commit_tree_for(Some(FIRST.to_string()), "second".to_string(), TREE.to_string()).unwrap();
    assert_eq!(ready.name, "2211fe90b23492a1ca7dbe2f55a1a748736f6ae1");
    let text = String::from_utf8(Object::read(&ready.bytes).unwrap().content).unwrap();
    assert!(text.starts_with(
        "tree 0d8a474fc67971fb3dd7616e26323d3066442555\nparent c2e8afe26ce2e2401904b6c14a9571f6ed38b4d1\nauthor "
    ));
}

#[test]
fn commit_signed_by_someone() {
    let ready = commit_tree_signed(None, "m".to_string(), TREE.to_string(), &someone()).unwrap();
    let text = String::from_utf8(Object::read(&ready.bytes).unwrap().content).unwrap();
    assert_eq!(
        text,
        format!(
            "tree {}\nauthor A U Thor <author@example.org> 0 -0730\ncommitter A U Thor <author@example.org> 0 -0730\n\nm\n",
            TREE
        )
    );
}

#[test]
fn commit_message_may_hold_any_text() {
    let message = "caf\u{e9} \u{1f600}\nline two";
    let ready = commit_tree_for(None, message.to_string(), TREE.to_string()).unwrap();
    let text = String::from_utf8(Object::read(&ready.bytes).unwrap().content).unwrap();
    assert!(text.ends_with("\n\ncaf\u{e9} \u{1f600}\nline two\n"));
}

#[test]
fn commit_refuses_malformed_names() {
    let refused = |parent: Option<&str>, tree: &str| {
        commit_tree_for(parent.map(|p| p.to_string()), "m".to_string(), tree.to_string()).unwrap_err()
    };
    assert_eq!(refused(None, ""), StoreError::InvalidArgument);
    assert_eq!(refused(None, &TREE[1..]), StoreError::InvalidArgument);
    assert_eq!(refused(None, &TREE.to_uppercase()), StoreError::InvalidArgument);
    assert_eq!(refused(None, &format!("{}\n", TREE)), StoreError::InvalidArgument);
    assert_eq!(refused(Some(""), TREE), StoreError::InvalidArgument);
    assert_eq!(refused(Some(&format!("{}\n", FIRST)), TREE), StoreError::InvalidArgument);
    assert_eq!(refused(Some("HEAD"), TREE), StoreError::InvalidArgument);
    assert_eq!(refused(Some("nope"), "nope"), StoreError::InvalidArgument);
}

#[test]
fn trim_takes_white_space_from_both_ends() {
    assert_eq!(trim("  a b \n"), "a b");
    assert_eq!(trim("\t\r\n x\u{3000}"), "x");
    assert_eq!(trim(""), "");
    assert_eq!(trim(" \n\t "), "");
    assert_eq!(trim("x"), "x");
    assert_eq!(trim("\u{a0}\u{e9}t\u{e9}\u{2028}"), "\u{e9}t\u{e9}");
    for text in ["", " ", "a", " a", "a ", "\u{85}a\u{85}", "a\u{200b}", "\u{1680}\u{2000}\u{200a}\u{2029}\u{202f}\u{205f}"] {
        assert_eq!(trim(text), text.trim());
    }
}

#[test]
fn whitespace_is_what_trimming_takes_away() {
    for code in 0u32..0x3100 {
        if let Some(c) = char::from_u32(code) {
            assert_eq!(whitespace(c), c.is_whitespace(), "U+{:04X}", code);
        }
    }
    assert!(!whitespace('\u{feff}'));
    assert!(!whitespace('\u{10ffff}'));
}

#[test]
fn head_names_the_file_of_a_reference() {
    assert_eq!(head_ref_path("ref: refs/heads/main\n").unwrap(), ".git/refs/heads/main");
    assert_eq!(head_ref_path(&new_head()).unwrap(), ".git/refs/heads/main");
    assert_eq!(head_ref_path("  ref: refs/heads/topic  ").unwrap(), ".git/refs/heads/topic");
    assert_eq!(head_ref_path("ref: x").unwrap(), ".git/x");
    assert_eq!(head_ref_path("ref:  two").unwrap(), ".git/ two");
}

#[test]
fn head_that_is_no_reference_is_not_supported() {
    assert_eq!(head_ref_path(FIRST).unwrap_err(), StoreError::UnsupportedOperation);
    assert_eq!(head_ref_path("").unwrap_err(), StoreError::UnsupportedOperation);
    assert_eq!(head_ref_path("ref:").unwrap_err(), StoreError::UnsupportedOperation);
    assert_eq!(head_ref_path("ref: ").unwrap_err(), StoreError::UnsupportedOperation);
    assert_eq!(head_ref_path("ref:refs/heads/main").unwrap_err(), StoreError::UnsupportedOperation);
    assert_eq!(head_ref_path("Ref: refs/heads/main").unwrap_err(), StoreError::UnsupportedOperation);
    assert_eq!(head_ref_path("xref: refs/heads/main").unwrap_err(), StoreError::UnsupportedOperation);
}

#[test]
fn new_head_points_to_main() {
    assert_eq!(new_head(), "ref: refs/heads/main\n");
}

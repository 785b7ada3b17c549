use git_objects::codec::digest_hex;
use git_objects::error::StoreError;
use git_objects::object::{Kind, Object};
use git_objects::store::{is_object_name, locate, store_object, StoredObject};

const HI: &str = "45b983be36b73c0788dc9cbcb76cbb80fc7bb057";

#[test]
fn locate_splits_the_name_after_two_digits() {
    let path = locate(HI).unwrap();
    assert_eq!(path.dir, ".git/objects/45/");
    assert_eq!(path.file, ".git/objects/45/b983be36b73c0788dc9cbcb76cbb80fc7bb057");
}

#[test]
fn locate_refuses_names_of_another_length() {
    assert_eq!(locate("").unwrap_err(), StoreError::InvalidArgument);
    assert_eq!(locate("4").unwrap_err(), StoreError::InvalidArgument);
    assert_eq!(locate("45").unwrap_err(), StoreError::InvalidArgument);
    assert_eq!(locate(&HI[..39]).unwrap_err(), StoreError::InvalidArgument);
    assert_eq!(locate(&format!("{}0", HI)).unwrap_err(), StoreError::InvalidArgument);
}

#[test]
fn locate_refuses_what_is_not_lowercase_hex() {
    assert_eq!(locate(&HI.to_uppercase()).unwrap_err(), StoreError::InvalidArgument);
    assert_eq!(locate(&HI.replace('4', "g")).unwrap_err(), StoreError::InvalidArgument);
    assert_eq!(locate(&HI.replace('4', "/")).unwrap_err(), StoreError::InvalidArgument);
    assert_eq!(locate(&format!("../{}", &HI[3..])).unwrap_err(), StoreError::InvalidArgument);
    assert_eq!(locate(&"\u{e9}".repeat(40)).unwrap_err(), StoreError::InvalidArgument);
    assert_eq!(locate(&"\u{e9}".repeat(20)).unwrap_err(), StoreError::InvalidArgument);
}

#[test]
fn object_names_are_forty_hex_digits() {
    assert!(is_object_name(HI));
    assert!(is_object_name(&"0".repeat(40)));
    assert!(is_object_name("0123456789abcdef0123456789abcdef01234567"));
    assert!(!is_object_name("0123456789abcdef0123456789abcdef0123456"));
    assert!(!is_object_name("0123456789abcdef0123456789abcdef0123456G"));
    assert!(!is_object_name("0123456789abcdef0123456789abcdef0123456 "));
    assert!(!is_object_name(&format!("{}\n", HI)));
}

#[test]
fn stored_object_is_placed_by_its_name() {
    let ready = Object { kind: Kind::Blob, content: b"hi\n".to_vec() }.write_to_objects().unwrap();
    assert_eq!(ready.name, HI);
    assert_eq!(digest_hex(&ready.digest), HI);
    assert_eq!(ready.path.dir, ".git/objects/45/");
    assert_eq!(ready.path.file, ".git/objects/45/b983be36b73c0788dc9cbcb76cbb80fc7bb057");
    let read = Object::read(&ready.bytes).unwrap();
    assert_eq!(read.kind, Kind::Blob);
    assert_eq!(read.content, b"hi\n".to_vec());
    let found = locate(&ready.name).unwrap();
    assert_eq!(found.dir, ready.path.dir);
    assert_eq!(found.file, ready.path.file);
}

#[test]
fn store_object_takes_borrowed_content() {
    let ready = store_object(Kind::Tree, b"").unwrap();
    assert_eq!(ready.name, "4b825dc642cb6eb9a060e54bf8d69288fbee4904");
    let read = Object::read(&ready.bytes).unwrap();
    assert_eq!(read.kind, Kind::Tree);
    assert_eq!(read.size(), 0);
}

#[test]
fn place_keeps_digest_and_stream() {
    let mut digest = [0u8; 20];
    digest[0] = 0xab;
    digest[1] = 0xcd;
    let placed = StoredObject::place(digest, vec![1, 2, 3]);
    assert_eq!(placed.digest, digest);
    assert_eq!(placed.bytes, vec![1, 2, 3]);
    assert_eq!(placed.name, format!("abcd{}", "0".repeat(36)));
    assert_eq!(placed.path.dir, ".git/objects/ab/");
    assert_eq!(placed.path.file, format!(".git/objects/ab/cd{}", "0".repeat(36)));
}

use git_objects::codec::{digest_hex, HashWriter};
use git_objects::error::StoreError;
use git_objects::object::{digest_of, header_line, read_size, write_decimal, write_framed, Kind, Object};
use sha1::{Digest, Sha1};

fn blob(content: &[u8]) -> Object {
    Object { kind: Kind::Blob, content: content.to_vec() }
}

fn parse_err(raw: &[u8]) -> StoreError {
    match Object::parse(raw) {
        Ok(object) => panic!("parsed as {:?}", object),
        Err(e) => e,
    }
}

#[test]
fn kind_new_reads_the_three_tags() {
    assert_eq!(Kind::new("blob"), Some(Kind::Blob));
    assert_eq!(Kind::new("tree"), Some(Kind::Tree));
    assert_eq!(Kind::new("commit"), Some(Kind::Commit));
}

#[test]
fn kind_new_refuses_anything_else() {
    assert_eq!(Kind::new(""), None);
    assert_eq!(Kind::new("Blob"), None);
    assert_eq!(Kind::new("blob "), None);
    assert_eq!(Kind::new("blobs"), None);
    assert_eq!(Kind::new("tag"), None);
    assert_eq!(Kind::new("tr\u{e9}e"), None);
    assert_eq!(Kind::new("commi"), None);
}

#[test]
fn kind_from_tag_reads_bytes() {
    assert_eq!(Kind::from_tag(b"blob"), Some(Kind::Blob));
    assert_eq!(Kind::from_tag(b"tree"), Some(Kind::Tree));
    assert_eq!(Kind::from_tag(b"commit"), Some(Kind::Commit));
    assert_eq!(Kind::from_tag(b"blo"), None);
    assert_eq!(Kind::from_tag(b"commit\n"), None);
}

#[test]
fn kind_to_string_is_the_tag() {
    assert_eq!(Kind::Blob.to_string(), "blob");
    assert_eq!(Kind::Tree.to_string(), "tree");
    assert_eq!(Kind::Commit.to_string(), "commit");
    assert_eq!(Kind::new(&Kind::Commit.to_string()), Some(Kind::Commit));
}

#[test]
fn header_is_kind_space_size_nul() {
    assert_eq!(header_line(Kind::Blob, 3), b"blob 3\0".to_vec());
    assert_eq!(header_line(Kind::Tree, 0), b"tree 0\0".to_vec());
    assert_eq!(header_line(Kind::Commit, 1234567890), b"commit 1234567890\0".to_vec());
    assert_eq!(blob(b"hi\n").header(), b"blob 3\0".to_vec());
    assert_eq!(blob(b"hi\n").size(), 3);
}

#[test]
fn decimal_has_no_leading_zero() {
    let mut out = b"n=".to_vec();
    write_decimal(&mut out, 0);
    out.push(b',');
    write_decimal(&mut out, 9);
    out.push(b',');
    write_decimal(&mut out, 10);
    out.push(b',');
    write_decimal(&mut out, 40960);
    assert_eq!(out, b"n=0,9,10,40960".to_vec());
    let mut max = Vec::new();
    write_decimal(&mut max, usize::MAX);
    assert_eq!(max, usize::MAX.to_string().into_bytes());
}

#[test]
fn size_field_is_digits_after_an_optional_plus() {
    assert_eq!(read_size(b"0"), Some(0));
    assert_eq!(read_size(b"3"), Some(3));
    assert_eq!(read_size(b"007"), Some(7));
    assert_eq!(read_size(b"+12"), Some(12));
    assert_eq!(read_size(usize::MAX.to_string().as_bytes()), Some(usize::MAX));
    assert_eq!(read_size(b""), None);
    assert_eq!(read_size(b"+"), None);
    assert_eq!(read_size(b"-1"), None);
    assert_eq!(read_size(b"++1"), None);
    assert_eq!(read_size(b"1+"), None);
    assert_eq!(read_size(b"12a"), None);
    assert_eq!(read_size(b" 12"), None);
    assert_eq!(read_size(b"3.0"), None);
}

#[test]
fn size_field_that_overflows_is_no_size() {
    let mut text = usize::MAX.to_string().into_bytes();
    text.push(b'0');
    assert_eq!(read_size(&text), None);
    let mut next = usize::MAX.to_string().into_bytes();
    let last = next.len() - 1;
    next[last] += 1;
    assert_eq!(read_size(&next), None);
    assert_eq!(read_size(b"99999999999999999999999999999999999999x"), None);
}

#[test]
fn digest_is_sha1_of_header_and_content() {
    let digest = blob(b"hi\n").digest();
    assert_eq!(digest_hex(&digest), "45b983be36b73c0788dc9cbcb76cbb80fc7bb057");
    let expected: [u8; 20] = Sha1::digest(b"blob 3\0hi\n").into();
    assert_eq!(digest, expected);
    assert_eq!(digest_of(Kind::Blob, b"hi\n"), expected);
    assert_eq!(digest_hex(&blob(b"").digest()), "e69de29bb2d1d6434b8b29ae775ad8c2e48c5391");
}

#[test]
fn digest_tells_kinds_apart() {
    let as_blob = digest_of(Kind::Blob, b"same");
    let as_tree = digest_of(Kind::Tree, b"same");
    let as_commit = digest_of(Kind::Commit, b"same");
    assert_ne!(as_blob, as_tree);
    assert_ne!(as_blob, as_commit);
    let tree: [u8; 20] = Sha1::digest(b"tree 4\0same").into();
    let commit: [u8; 20] = Sha1::digest(b"commit 4\0same").into();
    assert_eq!(as_tree, tree);
    assert_eq!(as_commit, commit);
}

#[test]
fn writing_twice_gives_one_name_and_readable_objects() {
    let object = blob(b"the same bytes, twice");
    let (first, first_stream) = object.write().unwrap();
    let (second, second_stream) = object.write().unwrap();
    assert_eq!(first, second);
    assert_eq!(first, object.digest());
    for stream in [first_stream, second_stream] {
        let read = Object::read(&stream).unwrap();
        assert_eq!(read.kind, Kind::Blob);
        assert_eq!(read.content, b"the same bytes, twice".to_vec());
    }
}

#[test]
fn what_is_written_reads_back() {
    let contents: [&[u8]; 5] = [b"", b"hi\n", b"\0\0\0", b"blob 3\0hi\n", &[0xffu8; 70000]];
    for kind in [Kind::Blob, Kind::Tree, Kind::Commit] {
        for content in contents {
            let (digest, stream) = write_framed(kind, content).unwrap();
            assert_eq!(digest, digest_of(kind, content));
            let read = Object::read(&stream).unwrap();
            assert_eq!(read.kind, kind);
            assert_eq!(read.size(), content.len());
            assert_eq!(read.content, content.to_vec());
        }
    }
}

#[test]
fn written_stream_is_compressed() {
    let content = vec![b'a'; 10000];
    let (_, stream) = write_framed(Kind::Blob, &content).unwrap();
    assert!(stream.len() < 200);
    assert_ne!(stream, content);
    assert_eq!(Object::read(&stream).unwrap().content, content);
}

#[test]
fn stored_bytes_that_are_no_stream_fail_with_io() {
    assert_eq!(Object::read(b"").unwrap_err(), StoreError::Io);
    assert_eq!(Object::read(b"blob 3\0hi\n").unwrap_err(), StoreError::Io);
    let (_, stream) = write_framed(Kind::Blob, b"some content to cut short").unwrap();
    assert_eq!(Object::read(&stream[..stream.len() / 2]).unwrap_err(), StoreError::Io);
}

#[test]
fn parse_takes_header_and_content() {
    let object = Object::parse(b"blob 3\0hi\n").unwrap();
    assert_eq!(object.kind, Kind::Blob);
    assert_eq!(object.content, b"hi\n".to_vec());
    let empty = Object::parse(b"commit 0\0").unwrap();
    assert_eq!(empty.kind, Kind::Commit);
    assert_eq!(empty.content, Vec::<u8>::new());
}

#[test]
fn parse_cuts_content_to_the_declared_size() {
    let object = Object::parse(b"tree 2\0abcdef").unwrap();
    assert_eq!(object.kind, Kind::Tree);
    assert_eq!(object.content, b"ab".to_vec());
    assert_eq!(object.size(), 2);
}

#[test]
fn parse_fails_with_io_where_content_is_short() {
    assert_eq!(parse_err(b"blob 4\0hi\n"), StoreError::Io);
    assert_eq!(parse_err(b"blob 1\0"), StoreError::Io);
}

#[test]
fn header_without_nul_is_corrupt() {
    assert_eq!(parse_err(b""), StoreError::CorruptHeader);
    assert_eq!(parse_err(b"blob 3"), StoreError::CorruptHeader);
    assert_eq!(parse_err(b"blob 3 hi\n"), StoreError::CorruptHeader);
}

#[test]
fn header_without_space_is_corrupt() {
    assert_eq!(parse_err(b"blob3\0hi\n"), StoreError::CorruptHeader);
    assert_eq!(parse_err(b"\0"), StoreError::CorruptHeader);
    assert_eq!(parse_err(b"blob\0 3\0"), StoreError::CorruptHeader);
}

#[test]
fn header_with_a_size_that_is_no_number_is_corrupt() {
    assert_eq!(parse_err(b"blob three\0hi\n"), StoreError::CorruptHeader);
    assert_eq!(parse_err(b"blob \0"), StoreError::CorruptHeader);
    assert_eq!(parse_err(b"blob -3\0hi\n"), StoreError::CorruptHeader);
    assert_eq!(parse_err(b"blob 3 \0hi\n"), StoreError::CorruptHeader);
    assert_eq!(parse_err(b"blob  3\0hi\n"), StoreError::CorruptHeader);
}

#[test]
fn header_with_an_unknown_tag_is_unknown_kind() {
    assert_eq!(parse_err(b"tag 3\0hi\n"), StoreError::UnknownKind);
    assert_eq!(parse_err(b" 3\0hi\n"), StoreError::UnknownKind);
    assert_eq!(parse_err(b"BLOB 3\0hi\n"), StoreError::UnknownKind);
    assert_eq!(parse_err(b"tag three\0"), StoreError::UnknownKind);
}

#[test]
fn header_that_is_not_utf8_is_corrupt() {
    assert_eq!(parse_err(b"blob 3\xff\0hi\n"), StoreError::CorruptHeader);
    assert_eq!(parse_err(b"t\xe9g 3\0hi\n"), StoreError::CorruptHeader);
    assert_eq!(parse_err(b"t\xc3\xa9g 3\0hi\n"), StoreError::UnknownKind);
}

#[test]
fn corrupted_stored_header_is_reported() {
    let cases: [(&[u8], StoreError); 4] = [
        (b"blob3\0hi\n", StoreError::CorruptHeader),
        (b"blob x\0hi\n", StoreError::CorruptHeader),
        (b"blub 3\0hi\n", StoreError::UnknownKind),
        (b"blob 9\0hi\n", StoreError::Io),
    ];
    for (raw, expected) in cases {
        let mut sink = HashWriter::new();
        sink.write(raw);
        let (_, stream) = sink.finish().unwrap();
        assert_eq!(Object::read(&stream).unwrap_err(), expected);
    }
}

#[test]
fn hash_writer_hashes_and_compresses_all_writes() {
    let mut sink = HashWriter::new();
    sink.write(b"blob 3\0");
    sink.write(b"");
    sink.write(b"hi");
    sink.write(b"\n");
    assert_eq!(digest_hex(&sink.digest()), "45b983be36b73c0788dc9cbcb76cbb80fc7bb057");
    let (digest, stream) = sink.finish().unwrap();
    assert_eq!(digest_hex(&digest), "45b983be36b73c0788dc9cbcb76cbb80fc7bb057");
    let object = Object::read(&stream).unwrap();
    assert_eq!(object.kind, Kind::Blob);
    assert_eq!(object.content, b"hi\n".to_vec());
}

#[test]
fn hash_writer_of_nothing() {
    let sink = HashWriter::new();
    assert_eq!(digest_hex(&sink.digest()), "da39a3ee5e6b4b0d3255bfef95601890afd80709");
}

#[test]
fn digest_hex_is_lowercase_two_digits_per_byte() {
    let mut digest = [0u8; 20];
    digest[0] = 0x45;
    digest[1] = 0xb9;
    digest[2] = 0x0a;
    digest[19] = 0xf0;
    assert_eq!(digest_hex(&digest), "45b90a00000000000000000000000000000000f0");
    assert_eq!(digest_hex(&[0xff; 20]), "f".repeat(40));
}

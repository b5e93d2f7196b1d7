use not_so_turbo_puffer::keys::prefixed_key;
use not_so_turbo_puffer::engine::{DocumentId, IdType};
use not_so_turbo_puffer::format::{i64_to_decimal, u64_to_decimal, usize_to_decimal, uuid_bytes_text};
use not_so_turbo_puffer::keys::{new_inverted_index_key, new_posting_key, new_spfresh_index_key, new_wal_key};

#[test]
fn ids_print_as_they_were_made() {
    assert_eq!(DocumentId::from_text("doc-1").to_text(), "doc-1");
    assert_eq!(DocumentId::from_string("héllo".to_string()).to_text(), "héllo");
    assert_eq!(DocumentId::from_u64(0).to_text(), "0");
    assert_eq!(DocumentId::from_u64(18446744073709551615).to_text(), "18446744073709551615");
    assert_eq!(
        DocumentId::from_uuid(0x67e5504410b1426f9247bb680e5fe0c8).to_text(),
        "67e55044-10b1-426f-9247-bb680e5fe0c8"
    );
    let invalid = DocumentId { bytes: vec![b'a', 0xff, b'b'], id_type: IdType::String };
    assert_eq!(invalid.to_text(), "a\u{fffd}b");
}

#[test]
fn integer_and_uuid_texts() {
    assert_eq!(u64_to_decimal(1234567890), "1234567890");
    assert_eq!(i64_to_decimal(i64::MIN), "-9223372036854775808");
    assert_eq!(i64_to_decimal(-7), "-7");
    assert_eq!(usize_to_decimal(42), "42");
    let bytes: Vec<u8> = (0u8..16).collect();
    assert_eq!(uuid_bytes_text(&bytes), "00010203-0405-0607-0809-0a0b0c0d0e0f");
}

#[test]
fn new_keys_have_their_prefix_and_a_ulid() {
    let alphabet = "0123456789ABCDEFGHJKMNPQRSTVWXYZ";
    for (key, prefix) in [
        (new_wal_key(), "wal/"),
        (new_inverted_index_key(), "index/inverted_"),
        (new_spfresh_index_key(), "index/spfresh_metadata_"),
        (new_posting_key(), "postings/posting_"),
    ] {
        assert!(key.starts_with(prefix));
        let ulid = &key[prefix.len()..];
        assert_eq!(ulid.len(), 26);
        assert!(ulid.chars().all(|c| alphabet.contains(c)));
    }
    assert_ne!(new_wal_key(), new_wal_key());
}

#[test]
fn keys_join_their_prefix_and_the_ulid_given() {
    assert_eq!(prefixed_key("wal/", "01ARZ3NDEKTSV4RRFFQ69G5FAV"), "wal/01ARZ3NDEKTSV4RRFFQ69G5FAV");
    assert_ne!(new_wal_key(), new_wal_key());
}

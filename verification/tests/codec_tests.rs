use blocksmith::address::derive_address;
use blocksmith::block::Block;
use blocksmith::codec::to_hex;
use blocksmith::transaction::Transaction;
use sha2::Digest;

#[test]
fn hex_encoding_is_exact() {
    assert_eq!(to_hex(&[]), "");
    assert_eq!(to_hex(&[0x00]), "00");
    assert_eq!(to_hex(&[0xbe, 0xef]), "beef");
    assert_eq!(to_hex(&[0x01, 0x23, 0x45, 0x67, 0x89, 0xab, 0xcd, 0xef]), "0123456789abcdef");
}

#[test]
fn genesis_serialization_is_canonical() {
    let expected = "{\"timestamp\":1706493690000,\"nonce\":0,\"previous_hash\":\"\",\"transactions\":[]}";
    assert_eq!(Block::genesis().serialize(), expected.as_bytes().to_vec());
}

#[test]
fn genesis_hash_matches_direct_sha256() {
    let expected_json = "{\"timestamp\":1706493690000,\"nonce\":0,\"previous_hash\":\"\",\"transactions\":[]}";
    let digest = sha2::Sha256::digest(expected_json.as_bytes());
    let expected_hex: String = digest.iter().map(|b| format!("{:02x}", b)).collect();
    assert_eq!(Block::genesis().hash().unwrap(), expected_hex);
}

#[test]
fn serialization_renders_fields_in_order() {
    let tx = Transaction::new(String::from("alice"), String::from("bob"), 50);
    let block = Block::new(7, vec![tx], 3, String::from("ff00"));
    let expected = "{\"timestamp\":7,\"nonce\":3,\"previous_hash\":\"ff00\",\"transactions\":[{\"sender_address\":\"alice\",\"recipient_address\":\"bob\",\"value\":50}]}";
    assert_eq!(block.serialize(), expected.as_bytes().to_vec());
}

#[test]
fn serialization_escapes_and_signs() {
    let tx = Transaction::new(String::from("a\"b\\c\nd"), String::from("e\tf"), -5);
    let tx2 = Transaction::new(String::from("g"), String::from("h"), 0);
    let block = Block::new(-1, vec![tx, tx2], 0, String::from("\u{1}"));
    let expected = "{\"timestamp\":-1,\"nonce\":0,\"previous_hash\":\"\\u0001\",\"transactions\":[{\"sender_address\":\"a\\\"b\\\\c\\nd\",\"recipient_address\":\"e\\tf\",\"value\":-5},{\"sender_address\":\"g\",\"recipient_address\":\"h\",\"value\":0}]}";
    assert_eq!(block.serialize(), expected.as_bytes().to_vec());
}

#[test]
fn serialization_matches_serde_json_escaping() {
    // The canonical form must agree with the ordinary JSON rendering of the
    // same fields, including string escapes.
    let sender = "q\"uo\\te\u{8}\u{c}\r\u{1f}end";
    let tx = Transaction::new(String::from(sender), String::from("r"), 1);
    let block = Block::new(5, vec![tx], 2, String::from("p"));
    let expected = format!(
        "{{\"timestamp\":5,\"nonce\":2,\"previous_hash\":\"p\",\"transactions\":[{{\"sender_address\":{},\"recipient_address\":\"r\",\"value\":1}}]}}",
        serde_json::to_string(sender).unwrap()
    );
    assert_eq!(block.serialize(), expected.as_bytes().to_vec());
}

#[test]
fn address_derivation_matches_reference_pipeline() {
    // Recompute the published pipeline directly with the hash and encode
    // crates and hold the library's derivation to it.
    let mut key = [0u8; 65];
    key[0] = 0x04;
    for (i, b) in key.iter_mut().enumerate().skip(1) {
        *b = i as u8;
    }

    let h1 = sha2::Sha256::digest(key);
    let h2 = ripemd::Ripemd160::digest(h1);
    let mut versioned = vec![0x6fu8];
    versioned.extend_from_slice(&h2);
    let c1 = sha2::Sha256::digest(&versioned);
    let c2 = sha2::Sha256::digest(c1);
    let mut payload = versioned.clone();
    payload.extend_from_slice(&c2[0..4]);
    let expected = bs58::encode(payload).into_string();

    assert_eq!(derive_address(&key), expected);
}

#[test]
fn address_derivation_is_deterministic_and_sensitive() {
    let key_a = [0x04u8; 65];
    let mut key_b = [0x04u8; 65];
    key_b[64] = 0x05;
    assert_eq!(derive_address(&key_a), derive_address(&key_a));
    assert_ne!(derive_address(&key_a), derive_address(&key_b));
}

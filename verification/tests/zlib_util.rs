use tig::error::TigError;
use tig::utils::zlib_util::{decode, encode};

#[test]
fn encode_and_decode() -> Result<(), TigError> {
    let blob = String::from("abcdefg").into_bytes();

    let encoded = encode(&blob)?;
    let decoded = decode(&encoded)?;

    assert_eq!(blob, decoded);

    Ok(())
}

#[test]
fn encode_changes_the_bytes() {
    let blob = b"abcdefg".to_vec();
    let encoded = encode(&blob).unwrap();
    assert_ne!(encoded, blob);
}

#[test]
fn encode_and_decode_empty() {
    let encoded = encode(b"").unwrap();
    assert_eq!(decode(&encoded).unwrap(), Vec::<u8>::new());
}

#[test]
fn decode_rejects_garbage() {
    assert_eq!(decode(b"not zlib"), Err(TigError::Decompress));
}

use airsim_rpc::errors::{DecodeError, NetworkError};

#[test]
fn decode_error_descriptions() {
    assert_eq!(
        DecodeError::Truncated.description(),
        "could not read enough bytes to decode a complete message"
    );
    assert_eq!(
        DecodeError::Invalid.description(),
        "the byte sequence is not a valid msgpack-rpc message"
    );
    assert_eq!(
        DecodeError::UnknownIo.description(),
        "Unknown IO error while decoding a message"
    );
}

#[test]
fn error_variants_are_distinguishable() {
    assert_ne!(DecodeError::Truncated, DecodeError::Invalid);
    assert_ne!(NetworkError::Recv, NetworkError::Io);
}

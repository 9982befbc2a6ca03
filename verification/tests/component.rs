use cordis::component::{ComponentArtifact, ComponentEvent, ComponentPrepareError};

#[test]
fn digest_mismatch_is_rejected_before_lifecycle_admission() {
    let artifact = ComponentArtifact::with_digest(b"not a component".to_vec(), [0; 32]);
    assert!(matches!(artifact.check_digest(), Err(ComponentPrepareError::DigestMismatch)));
}

#[test]
fn derived_digest_is_admitted() {
    let artifact = ComponentArtifact::from_bytes(b"not a component".to_vec());
    assert_eq!(artifact.check_digest(), Ok(()));
    assert_eq!(artifact.bytes(), b"not a component");
}

#[test]
fn digest_is_sha256_of_the_bytes() {
    let abc_digest: [u8; 32] = [
        0xba, 0x78, 0x16, 0xbf, 0x8f, 0x01, 0xcf, 0xea, 0x41, 0x41, 0x40, 0xde, 0x5d, 0xae, 0x22, 0x23, 0xb0, 0x03, 0x61,
        0xa3, 0x96, 0x17, 0x7a, 0x9c, 0xb4, 0x10, 0xff, 0x61, 0xf2, 0x00, 0x15, 0xad,
    ];
    assert_eq!(ComponentArtifact::with_digest(b"abc".to_vec(), abc_digest).check_digest(), Ok(()));
    let mut wrong = abc_digest;
    wrong[31] ^= 1;
    assert_eq!(
        ComponentArtifact::with_digest(b"abc".to_vec(), wrong).check_digest(),
        Err(ComponentPrepareError::DigestMismatch)
    );
}

#[test]
fn component_event_keeps_name_and_payload() {
    let event = ComponentEvent::new("guest/ping".to_string(), vec![1, 2, 3]);
    assert_eq!(event.name(), "guest/ping");
    assert_eq!(event.payload(), &[1, 2, 3]);
    let empty = ComponentEvent::new(String::new(), Vec::new());
    assert_eq!(empty.name(), "");
    assert!(empty.payload().is_empty());
}

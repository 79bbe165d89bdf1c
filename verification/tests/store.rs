use rahn::store::{frame_object, open_object, validate_ref_name, COMMIT_TAG, STATE_TAG};
use rahn::canonical::{canonical_bytes, parse_canonical};
use rahn::identity::StateId;
use rahn::model::State;

#[test]
fn framed_object_opens_to_its_payload() {
    let payload = b"some canonical bytes".to_vec();
    let (name, bytes) = frame_object(STATE_TAG, &payload);
    assert_eq!(bytes[0], b'S');
    assert_eq!(&bytes[1..], &payload[..]);
    assert_eq!(name.len(), 64);
    assert!(name.chars().all(|c| c.is_ascii_hexdigit() && !c.is_ascii_uppercase()));
    assert_eq!(open_object(&name, &bytes, STATE_TAG).unwrap(), payload);
}

#[test]
fn object_name_is_sha256_of_payload() {
    // SHA-256 of no bytes: the tag is stored but not hashed.
    let (name, bytes) = frame_object(COMMIT_TAG, &[]);
    assert_eq!(bytes, vec![b'C']);
    assert_eq!(
        name,
        "e3b0c44298fc1c149afbf4c8996fb92427ae41e4649b934ca495991b7852b855"
    );
}

#[test]
fn stored_state_is_named_by_its_state_id() {
    let s = State::empty();
    let (name, bytes) = frame_object(STATE_TAG, &canonical_bytes(&s));
    assert_eq!(name, StateId::of(&s).as_hex());
    let payload = open_object(&name, &bytes, STATE_TAG).unwrap();
    assert_eq!(parse_canonical(&payload).unwrap(), s);
}

#[test]
fn empty_object_bytes_are_refused() {
    let (name, _) = frame_object(STATE_TAG, &[]);
    let err = open_object(&name, &[], STATE_TAG).unwrap_err();
    assert_eq!(err.expected, "type tag 83");
    assert_eq!(err.found, "tag None");
}

#[test]
fn corrupted_object_is_refused_loudly() {
    let (name, mut bytes) = frame_object(STATE_TAG, b"payload");
    bytes.push(0);
    let err = open_object(&name, &bytes, STATE_TAG).unwrap_err();
    assert_eq!(err.expected, name);
    assert_ne!(err.found, name);
    assert_eq!(err.found.len(), 64);
}

#[test]
fn object_with_other_tag_is_refused() {
    let (name, bytes) = frame_object(COMMIT_TAG, b"payload");
    let err = open_object(&name, &bytes, STATE_TAG).unwrap_err();
    assert_eq!(err.expected, "type tag 83");
    assert_eq!(err.found, "tag Some(67)");
}

#[test]
fn ref_names_follow_the_rules() {
    for ok in ["main", "experiment", "feat/x-1", "v1.2_rc", "a.b/c"] {
        assert!(validate_ref_name(ok).is_ok(), "{ok}");
    }
    for bad in ["../evil", "", "a//b", "/a", "a/", "a..b", "sp ace", "é", &"x".repeat(129)] {
        assert!(validate_ref_name(bad).is_err(), "{bad}");
    }
    assert!(validate_ref_name(&"x".repeat(128)).is_ok());
}

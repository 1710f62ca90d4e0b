use factland::codec::{decode_profile, encode_profile, Profile};

fn sample() -> Profile {
    Profile {
        updated_time_msecs: Some(0x0102_0304_0506_0708),
        username: Some(b"alice".to_vec()),
        password: None,
        email: Some(b"a@example.com".to_vec()),
    }
}

#[test]
fn decode_inverts_encode() {
    let p = sample();
    let bytes = encode_profile(&p).unwrap();
    let q = decode_profile(&bytes).unwrap();
    assert_eq!(q.updated_time_msecs, p.updated_time_msecs);
    assert_eq!(q.username, p.username);
    assert_eq!(q.password, p.password);
    assert_eq!(q.email, p.email);
}

#[test]
fn encode_inverts_decode() {
    let bytes = encode_profile(&sample()).unwrap();
    let q = decode_profile(&bytes).unwrap();
    let re = encode_profile(&q).unwrap();
    assert_eq!(re, bytes);
}

#[test]
fn encoding_is_the_fixed_format() {
    let p = Profile {
        updated_time_msecs: Some(2),
        username: Some(vec![b'h', b'i']),
        password: None,
        email: None,
    };
    let bytes = encode_profile(&p).unwrap();
    assert_eq!(
        bytes,
        vec![
            1, 2, 0, 0, 0, 0, 0, 0, 0, // present timestamp, little-endian
            1, 2, 0, 0, 0, b'h', b'i', // present username, length-prefixed
            0, // absent password
            0, // absent email
        ]
    );
}

#[test]
fn malformed_bytes_are_refused() {
    // Empty input.
    assert!(decode_profile(&Vec::new()).is_none());
    // A tag that is neither absent nor present.
    assert!(decode_profile(&vec![2]).is_none());
    // A truncated timestamp.
    assert!(decode_profile(&vec![1, 0, 0]).is_none());
    // A length prefix pointing past the end.
    assert!(decode_profile(&vec![0, 1, 200, 0, 0, 0]).is_none());
    // Trailing garbage after a complete record.
    assert!(decode_profile(&vec![0, 0, 0, 0, 9]).is_none());
}

#[test]
fn empty_profile_is_four_absent_tags() {
    let p = Profile { updated_time_msecs: None, username: None, password: None, email: None };
    assert_eq!(encode_profile(&p).unwrap(), vec![0, 0, 0, 0]);
}

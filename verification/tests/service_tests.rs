use factland::codec::Profile;
use factland::service::Service;
use factland::Error;
use sha2::Digest;

fn id(bytes: &[u8]) -> Vec<u8> {
    bytes.to_vec()
}

fn profile(time: Option<u64>, username: Option<&[u8]>, password: Option<&[u8]>) -> Profile {
    Profile {
        updated_time_msecs: time,
        username: username.map(|b| b.to_vec()),
        password: password.map(|b| b.to_vec()),
        email: None,
    }
}

fn deployed() -> (Service, Vec<u8>) {
    let admin = id(&[9, 9, 9]);
    let s = Service::init(&admin);
    (s, admin)
}

#[test]
fn register_fills_defaults() {
    let (mut s, _) = deployed();
    let caller = id(&[1, 2, 3, 4]);
    let rand = vec![7u8; 32];
    let now: u64 = 123_456;
    let stored = s
        .register(&caller, now, &profile(None, None, None), &rand)
        .unwrap();
    assert_eq!(stored.updated_time_msecs, Some(now));
    let expected_name = candid::Principal::from_slice(&caller).to_text().into_bytes();
    assert_eq!(stored.username, Some(expected_name));
    let expected_password = hex::encode(sha2::Sha256::digest(&rand)).into_bytes();
    assert_eq!(stored.password, Some(expected_password));
    assert_eq!(stored.email, None);
    let back = s.login(&caller).unwrap();
    assert_eq!(back.updated_time_msecs, stored.updated_time_msecs);
    assert_eq!(back.username, stored.username);
    assert_eq!(back.password, stored.password);
}

#[test]
fn register_twice_fails_and_keeps_first() {
    let (mut s, _) = deployed();
    let caller = id(&[1]);
    let rand = vec![0u8; 32];
    let first = s
        .register(&caller, 10, &profile(None, None, None), &rand)
        .unwrap();
    let err = s
        .register(&caller, 20, &profile(None, Some(b"other"), None), &rand)
        .unwrap_err();
    assert_eq!(err, Error::AlreadyRegistered);
    let back = s.login(&caller).unwrap();
    assert_eq!(back.updated_time_msecs, first.updated_time_msecs);
    assert_eq!(back.username, first.username);
}

#[test]
fn login_unregistered_fails() {
    let (s, _) = deployed();
    assert_eq!(s.login(&id(&[42])).unwrap_err(), Error::NotFound);
}

#[test]
fn set_profile_last_writer_wins() {
    let (mut s, _) = deployed();
    let caller = id(&[5]);
    let rand = vec![1u8; 32];
    s.register(
        &caller,
        0,
        &profile(Some(100), Some(b"alice"), Some(b"pw")),
        &rand,
    )
    .unwrap();
    // An equal timestamp is dropped; the stored record is returned.
    let kept = s
        .set_profile(&caller, &profile(Some(100), Some(b"bob"), Some(b"x")), &rand)
        .unwrap();
    assert_eq!(kept.username, Some(b"alice".to_vec()));
    // An older timestamp is dropped too.
    let kept = s
        .set_profile(&caller, &profile(Some(50), Some(b"bob"), Some(b"x")), &rand)
        .unwrap();
    assert_eq!(kept.username, Some(b"alice".to_vec()));
    assert_eq!(s.login(&caller).unwrap().username, Some(b"alice".to_vec()));
    // A strictly newer one overwrites.
    let new = s
        .set_profile(&caller, &profile(Some(101), Some(b"bob"), Some(b"x")), &rand)
        .unwrap();
    assert_eq!(new.username, Some(b"bob".to_vec()));
    assert_eq!(s.login(&caller).unwrap().username, Some(b"bob".to_vec()));
}

#[test]
fn set_profile_fills_password_from_rand() {
    let (mut s, _) = deployed();
    let caller = id(&[6]);
    let rand = vec![3u8; 32];
    let stored = s
        .set_profile(&caller, &profile(Some(5), Some(b"x"), None), &rand)
        .unwrap();
    let expected = hex::encode(sha2::Sha256::digest(&rand)).into_bytes();
    assert_eq!(stored.password, Some(expected));
}

#[test]
fn oversized_profile_is_refused() {
    let (mut s, _) = deployed();
    let caller = id(&[7]);
    let rand = vec![0u8; 32];
    let big = vec![b'a'; 300];
    let err = s
        .register(
            &caller,
            1,
            &profile(Some(1), Some(&big), Some(b"pw")),
            &rand,
        )
        .unwrap_err();
    assert_eq!(err, Error::ValueTooLarge);
    assert_eq!(s.login(&caller).unwrap_err(), Error::NotFound);
}

#[test]
fn authorize_idempotent_and_deauthorize_absent_fails() {
    let (mut s, admin) = deployed();
    let other = id(&[8, 8]);
    s.authorize(&admin, &other).unwrap();
    let once = s.get_authorized(&admin).unwrap();
    s.authorize(&admin, &other).unwrap();
    let twice = s.get_authorized(&admin).unwrap();
    assert_eq!(once, twice);
    // Deauthorizing a non-member fails and changes nothing.
    let absent = id(&[4, 4, 4]);
    assert_eq!(s.deauthorize(&admin, &absent).unwrap_err(), Error::NotFound);
    assert_eq!(s.get_authorized(&admin).unwrap(), twice);
    // Deauthorizing a member removes exactly it.
    s.deauthorize(&admin, &other).unwrap();
    assert_eq!(s.get_authorized(&admin).unwrap(), vec![admin.clone()]);
}

#[test]
fn overlong_principal_is_refused() {
    let (mut s, admin) = deployed();
    let long = vec![1u8; 30];
    assert_eq!(s.authorize(&admin, &long).unwrap_err(), Error::KeyTooLarge);
    assert_eq!(
        s.authorize_controllers(&admin, &vec![long]).unwrap_err(),
        Error::KeyTooLarge
    );
}

#[test]
fn guards_refuse_outsiders() {
    let (mut s, _) = deployed();
    let nobody = id(&[250]);
    assert_eq!(s.backup(&nobody, 0, 10).unwrap_err(), Error::NotAuthorized);
    assert_eq!(s.get_authorized(&nobody).unwrap_err(), Error::NotAuthorized);
    assert_eq!(
        s.authorize(&nobody.clone(), &nobody).unwrap_err(),
        Error::NotAuthorized
    );
    assert_eq!(
        s.restore(&nobody, &Vec::new()).unwrap_err(),
        Error::NotAuthorized
    );
    assert_eq!(
        s.stable_size(&nobody).unwrap_err(),
        Error::NotStableAuthorized
    );
    assert_eq!(
        s.stable_write(&nobody, 0, &vec![1]).unwrap_err(),
        Error::NotStableAuthorized
    );
    assert_eq!(
        s.stable_authorize(&nobody.clone(), &nobody).unwrap_err(),
        Error::NotStableAuthorized
    );
}

#[test]
fn backup_pages_in_key_order() {
    let (mut s, admin) = deployed();
    let rand = vec![0u8; 32];
    // Five identities whose raw bytes order them lexicographically.
    let ids: Vec<Vec<u8>> = vec![
        vec![1],
        vec![2],
        vec![2, 1],
        vec![3],
        vec![4, 0, 0],
    ];
    // Register them out of order.
    for k in [3usize, 0, 4, 2, 1] {
        s.register(
            &ids[k],
            k as u64,
            &profile(Some(k as u64), Some(b"u"), Some(b"p")),
            &rand,
        )
        .unwrap();
    }
    let page1 = s.backup(&admin, 0, 2).unwrap();
    let page2 = s.backup(&admin, 2, 2).unwrap();
    let page3 = s.backup(&admin, 4, 2).unwrap();
    assert_eq!(page1.len(), 2);
    assert_eq!(page2.len(), 2);
    assert_eq!(page3.len(), 1);
    let mut all: Vec<(Vec<u8>, Profile)> = Vec::new();
    all.extend(page1);
    all.extend(page2);
    all.extend(page3);
    // Exactly the five keys, in byte-lexicographic order, as text.
    for (i, expected) in ids.iter().enumerate() {
        let text = candid::Principal::from_slice(expected).to_text().into_bytes();
        assert_eq!(all[i].0, text);
        assert_eq!(all[i].1.updated_time_msecs, Some(i as u64));
    }
}

#[test]
fn backup_then_restore_round_trips() {
    let (mut s, admin) = deployed();
    let rand = vec![0u8; 32];
    let a = id(&[10]);
    let b = id(&[11, 12]);
    s.register(&a, 1, &profile(Some(1), Some(b"a"), Some(b"pa")), &rand)
        .unwrap();
    s.register(&b, 2, &profile(Some(2), Some(b"b"), Some(b"pb")), &rand)
        .unwrap();
    let dump = s.backup(&admin, 0, 100).unwrap();

    let (mut fresh, admin2) = deployed();
    fresh.restore(&admin2, &dump).unwrap();
    assert_eq!(fresh.login(&a).unwrap().username, Some(b"a".to_vec()));
    assert_eq!(fresh.login(&b).unwrap().username, Some(b"b".to_vec()));
}

#[test]
fn restore_refuses_bad_principal_text() {
    let (mut s, admin) = deployed();
    let bad = vec![(
        b"not a principal".to_vec(),
        profile(Some(1), Some(b"u"), Some(b"p")),
    )];
    assert_eq!(
        s.restore(&admin, &bad).unwrap_err(),
        Error::InvalidPrincipalText
    );
}

#[test]
fn authorize_controllers_grants_both() {
    let (mut s, admin) = deployed();
    let c1 = id(&[21]);
    let c2 = id(&[22]);
    s.authorize_controllers(&admin, &vec![c1.clone(), c2.clone()])
        .unwrap();
    assert!(s.is_authorized(&c1));
    assert!(s.is_authorized(&c2));
    assert!(s.is_stable_authorized(&c1));
    assert!(s.is_stable_authorized(&c2));
    // Idempotent: granting again changes nothing observable.
    let before = s.get_authorized(&admin).unwrap();
    s.authorize_controllers(&admin, &vec![c1.clone()]).unwrap();
    assert_eq!(s.get_authorized(&admin).unwrap(), before);
}

#[test]
fn stable_write_grows_by_whole_pages() {
    let (mut s, admin) = deployed();
    assert_eq!(s.stable_size(&admin).unwrap(), 0);
    // Write 10 bytes at offset 70000: needs ceil(70010 / 65536) = 2 pages.
    let data = vec![0xABu8; 10];
    s.stable_write(&admin, 70000, &data).unwrap();
    assert_eq!(s.stable_size(&admin).unwrap(), 2 * 65536);
    assert_eq!(s.stable_read(&admin, 70000, 10).unwrap(), data);
    // The gap below is zero.
    assert_eq!(s.stable_read(&admin, 0, 4).unwrap(), vec![0u8; 4]);
    // A later write inside the size leaves other bytes unchanged.
    s.stable_write(&admin, 0, &vec![1, 2, 3]).unwrap();
    assert_eq!(s.stable_size(&admin).unwrap(), 2 * 65536);
    assert_eq!(s.stable_read(&admin, 70000, 10).unwrap(), data);
    assert_eq!(s.stable_read(&admin, 0, 3).unwrap(), vec![1, 2, 3]);
}

#[test]
fn stable_write_past_capacity_fails() {
    let (mut s, admin) = deployed();
    let err = s
        .stable_write(&admin, 134_217_728, &vec![1])
        .unwrap_err();
    assert_eq!(err, Error::RegionFull);
    assert_eq!(s.stable_size(&admin).unwrap(), 0);
}

#[test]
fn stable_read_out_of_bounds_fails() {
    let (mut s, admin) = deployed();
    s.stable_write(&admin, 0, &vec![1, 2, 3]).unwrap();
    assert_eq!(
        s.stable_read(&admin, 65530, 100).unwrap_err(),
        Error::OutOfBounds
    );
}

#[test]
fn upgrade_round_trip_preserves_everything() {
    let (mut s, admin) = deployed();
    let rand = vec![0u8; 32];
    let a = id(&[31]);
    let b = id(&[32, 33]);
    s.register(&a, 5, &profile(Some(5), Some(b"ua"), Some(b"pa")), &rand)
        .unwrap();
    s.register(&b, 6, &profile(Some(6), Some(b"ub"), Some(b"pb")), &rand)
        .unwrap();
    s.authorize(&admin, &a).unwrap();
    let dump_before = s.backup(&admin, 0, 100).unwrap();
    let auth_before = s.get_authorized(&admin).unwrap();

    let assets = vec![1u8, 2, 3, 4, 5];
    s.pre_upgrade(&assets).unwrap();
    let region = s.region;

    let (restored, assets_back) = Service::post_upgrade(region).unwrap();
    assert_eq!(assets_back, assets);
    assert_eq!(restored.get_authorized(&admin).unwrap(), auth_before);
    let dump_after = restored.backup(&admin, 0, 100).unwrap();
    assert_eq!(dump_before.len(), dump_after.len());
    for (x, y) in dump_before.iter().zip(dump_after.iter()) {
        assert_eq!(x.0, y.0);
        assert_eq!(x.1.updated_time_msecs, y.1.updated_time_msecs);
        assert_eq!(x.1.username, y.1.username);
        assert_eq!(x.1.password, y.1.password);
        assert_eq!(x.1.email, y.1.email);
    }
    // The stable-maintenance set is volatile: empty after the upgrade.
    assert!(!restored.is_stable_authorized(&admin));
}

#[test]
fn post_upgrade_on_blank_region_fails() {
    let region = factland::region::RawRegion::new();
    match Service::post_upgrade(region) {
        Err(e) => assert_eq!(e, Error::CorruptState),
        Ok(_) => panic!("a blank region must not restore"),
    }
}

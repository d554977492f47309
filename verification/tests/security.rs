use liminal_db::security::{hash_secret, Access, AccessError, ApiKey, Quotas, Role};

#[test]
fn blake3_hash_is_stable() {
    let a = hash_secret(b"example-secret");
    let b = hash_secret(b"example-secret");
    assert_eq!(a, b);

    let c = hash_secret(b"another");
    assert_ne!(a, c);
}

#[test]
fn authorization_checks_roles_and_namespaces() {
    let mut access = Access::new();
    access.register_namespace("alpha");
    access.register_namespace("beta");
    let key = ApiKey::new("writer-alpha", hash_secret(b"secret"), Role::Writer, "alpha", 0);
    access.add_key(key).unwrap();

    assert_eq!(access.authorize("writer-alpha", Role::Reader, "alpha").unwrap(), Role::Writer);
    assert_eq!(access.authorize("writer-alpha", Role::Writer, "alpha").unwrap(), Role::Writer);
    assert!(matches!(
        access.authorize("writer-alpha", Role::Admin, "alpha"),
        Err(AccessError::Forbidden { .. })
    ));
    assert!(matches!(
        access.authorize("writer-alpha", Role::Reader, "beta"),
        Err(AccessError::WrongNamespace { .. })
    ));
}

#[test]
fn hash_secret_is_blake3_of_the_bytes() {
    let h = hash_secret(b"");
    let hex: String = h.iter().map(|b| format!("{:02x}", b)).collect();
    assert_eq!(hex, "af1349b9f5f9a1a6a0404dea36dcc9499bcb25c9adc112b7cc9a93cae41f3262");
    assert_ne!(hash_secret(b"abc"), hash_secret(b"abd"));
}

#[test]
fn roles_are_ordered_reader_writer_admin() {
    assert!(Role::Admin.permits(Role::Writer));
    assert!(Role::Admin.permits(Role::Reader));
    assert!(Role::Writer.permits(Role::Reader));
    assert!(Role::Writer.permits(Role::Writer));
    assert!(!Role::Reader.permits(Role::Writer));
    assert!(!Role::Writer.permits(Role::Admin));
}

#[test]
fn every_access_error_comes_with_its_input() {
    let mut access = Access::new();
    access.register_namespace("alpha");
    let key = ApiKey::new("k1", hash_secret(b"s"), Role::Reader, "alpha", 7);
    access.add_key(key.clone()).unwrap();

    let again = access.add_key(key);
    assert_eq!(again, Err(AccessError::KeyExists("k1".to_string())));

    let stray = ApiKey::new("k2", hash_secret(b"s"), Role::Reader, "nowhere", 7);
    assert_eq!(access.add_key(stray), Err(AccessError::UnknownNamespace("nowhere".to_string())));

    assert_eq!(
        access.authorize("missing", Role::Reader, "alpha"),
        Err(AccessError::UnknownKey("missing".to_string()))
    );
    assert_eq!(access.disable_key("missing"), Err(AccessError::UnknownKey("missing".to_string())));

    access.disable_key("k1").unwrap();
    assert_eq!(
        access.authorize("k1", Role::Reader, "alpha"),
        Err(AccessError::KeyDisabled("k1".to_string()))
    );
}

#[test]
fn quotas_default_to_zero_and_can_be_set() {
    let q = Quotas::default();
    assert_eq!(q, Quotas { rps: 0, burst: 0, max_cells: 0, max_views: 0 });
    let mut access = Access::new();
    access.register_namespace("alpha");
    access.set_quota("alpha", Quotas { rps: 3, burst: 5, ..Default::default() });
    let key = ApiKey::new("admin", hash_secret(b"x"), Role::Admin, "alpha", 1);
    access.add_key(key).unwrap();
    assert_eq!(access.authorize("admin", Role::Admin, "alpha"), Ok(Role::Admin));
}

#[test]
fn access_error_messages() {
    let e = AccessError::Forbidden { key: "k".to_string(), role: Role::Reader, required: Role::Admin };
    assert_eq!(e.to_string(), "forbidden: key k has role Reader but Admin is required");
    let e = AccessError::WrongNamespace {
        key: "k".to_string(),
        key_ns: "alpha".to_string(),
        required_ns: "beta".to_string(),
    };
    assert_eq!(e.to_string(), "namespace mismatch for key k: key namespace is alpha, required beta");
    assert_eq!(AccessError::UnknownKey("k9".to_string()).to_string(), "unknown key: k9");
    assert_eq!(AccessError::KeyDisabled("k9".to_string()).to_string(), "key disabled: k9");
    assert_eq!(AccessError::KeyExists("k9".to_string()).to_string(), "key already exists: k9");
    assert_eq!(
        AccessError::UnknownNamespace("zz".to_string()).to_string(),
        "namespace not registered: zz"
    );
}

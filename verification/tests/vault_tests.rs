use rspass::errors::VaultError;
use rspass::vault::Vault;

#[test]
fn add_duplicate_keeps_first_secret() {
    let mut v = Vault::create_new(false).unwrap();
    v.add_password("x", "p").unwrap();
    let err = v.add_password("x", "q").unwrap_err();
    assert_eq!(err, VaultError::DuplicateEntry);
    assert_eq!(v.get_password("x").unwrap(), "p");
}

#[test]
fn remove_missing_returns_false_and_changes_nothing() {
    let mut v = Vault::create_new(false).unwrap();
    v.add_password("kept", "secret").unwrap();
    assert!(!v.remove_password("missing"));
    let names = v.list_services();
    assert_eq!(names.len(), 1);
    assert_eq!(names[0], "kept");
    assert_eq!(v.get_password("kept").unwrap(), "secret");
}

#[test]
fn get_missing_is_a_normal_absence() {
    let v = Vault::create_new(false).unwrap();
    assert!(v.get_password("nothing").is_none());
}

#[test]
fn create_refuses_to_shadow_an_existing_vault() {
    let err = Vault::create_new(true).unwrap_err();
    assert_eq!(err, VaultError::AlreadyExists);
}

#[test]
fn update_replaces_only_existing_entries() {
    // updating is deliberately not an upsert
    let mut v = Vault::create_new(false).unwrap();
    let err = v.update_password("github", "g2").unwrap_err();
    assert_eq!(err, VaultError::MissingEntry);
    v.add_password("github", "g1").unwrap();
    v.update_password("github", "g2").unwrap();
    assert_eq!(v.get_password("github").unwrap(), "g2");
    assert_eq!(v.list_services().len(), 1);
}

#[test]
fn list_services_names_every_entry_once() {
    let mut v = Vault::create_new(false).unwrap();
    v.add_password("alpha", "1").unwrap();
    v.add_password("beta", "2").unwrap();
    v.add_password("gamma", "3").unwrap();
    let mut names: Vec<String> = v.list_services().iter().map(|s| s.to_string()).collect();
    names.sort();
    assert_eq!(names, vec!["alpha", "beta", "gamma"]);
}

#[test]
fn wipe_empties_the_mapping() {
    let mut v = Vault::create_new(false).unwrap();
    v.add_password("alpha", "1").unwrap();
    v.add_password("beta", "2").unwrap();
    v.wipe();
    assert!(v.list_services().is_empty());
    assert!(v.get_password("alpha").is_none());
}

#[test]
fn fresh_vault_loads_back_empty_and_rejects_wrong_password() {
    let v = Vault::create_new(false).unwrap();
    let bytes = v.save("hunter2").unwrap();
    let loaded = Vault::load(&bytes, "hunter2").unwrap();
    assert!(loaded.list_services().is_empty());
    let err = Vault::load(&bytes, "wrong").unwrap_err();
    assert_eq!(err, VaultError::WrongPassword);
}

#[test]
fn saved_entries_load_back_intact() {
    let mut v = Vault::create_new(false).unwrap();
    v.add_password("github", "g1").unwrap();
    let bytes = v.save("hunter2").unwrap();
    let loaded = Vault::load(&bytes, "hunter2").unwrap();
    assert_eq!(loaded.get_password("github").unwrap(), "g1");
    let names = loaded.list_services();
    assert_eq!(names.len(), 1);
    assert_eq!(names[0], "github");
}

#[test]
fn removal_survives_a_save_and_load() {
    let mut v = Vault::create_new(false).unwrap();
    v.add_password("github", "g1").unwrap();
    let bytes = v.save("hunter2").unwrap();
    let mut loaded = Vault::load(&bytes, "hunter2").unwrap();
    assert!(loaded.remove_password("github"));
    let bytes2 = loaded.save("hunter2").unwrap();
    let reloaded = Vault::load(&bytes2, "hunter2").unwrap();
    assert!(reloaded.list_services().is_empty());
}

#[test]
fn unusual_names_and_secrets_round_trip() {
    let mut v = Vault::create_new(false).unwrap();
    v.add_password("", "empty name").unwrap();
    v.add_password("naïve–sïte ☃", "pässwörd\n\t\"quoted\"").unwrap();
    let bytes = v.save("hunter2").unwrap();
    let loaded = Vault::load(&bytes, "hunter2").unwrap();
    assert_eq!(loaded.get_password("").unwrap(), "empty name");
    assert_eq!(
        loaded.get_password("naïve–sïte ☃").unwrap(),
        "pässwörd\n\t\"quoted\""
    );
}

#[test]
fn corrupt_vault_bytes_are_reported_as_corrupt() {
    let err = Vault::load(b"not a vault", "hunter2").unwrap_err();
    assert_eq!(err, VaultError::VaultCorrupt);
}

#[test]
fn many_entries_survive_a_round_trip() {
    let mut v = Vault::create_new(false).unwrap();
    let pairs = [
        ("github", "g1"),
        ("email", "e2"),
        ("bank", "b3"),
        ("forum", "f4"),
        ("router", "r5"),
    ];
    for (service, secret) in pairs {
        v.add_password(service, secret).unwrap();
    }
    let bytes = v.save("hunter2").unwrap();
    let loaded = Vault::load(&bytes, "hunter2").unwrap();
    assert_eq!(loaded.list_services().len(), pairs.len());
    for (service, secret) in pairs {
        assert_eq!(loaded.get_password(service).unwrap(), secret);
    }
}

use ai_monitor::codex::{
    check_login, validate_profile_name, Config, Error, Profile, ProfileEntry, ProfileStore,
};

fn entry(name: &str, is_dir: bool, has_auth: bool) -> ProfileEntry {
    ProfileEntry { name: Some(name.to_owned()), is_dir, has_auth }
}

#[test]
fn rejects_unsafe_profile_names() {
    assert!(validate_profile_name("main").is_ok());
    assert!(validate_profile_name("../main").is_err());
    assert!(validate_profile_name("bad name").is_err());
}

#[test]
fn profile_names_edge_cases() {
    assert!(validate_profile_name("").is_err());
    assert!(validate_profile_name(".").is_err());
    assert!(validate_profile_name("..").is_err());
    assert!(validate_profile_name("...").is_ok());
    assert!(validate_profile_name("work-2_a.b").is_ok());
    assert!(validate_profile_name("café").is_err());
    assert!(matches!(validate_profile_name("a/b"), Err(Error::InvalidProfileName)));
}

#[test]
fn auth_file_joins_the_home_directory() {
    let profile = Profile { name: "main".to_owned(), home: "/tmp/store/profiles/main".to_owned(), authenticated: false };
    assert_eq!(profile.auth_file(), "/tmp/store/profiles/main/auth.json");
    let trailing = Profile { name: "x".to_owned(), home: "/tmp/x/".to_owned(), authenticated: false };
    assert_eq!(trailing.auth_file(), "/tmp/x/auth.json");
}

#[test]
fn store_paths_stay_under_the_root() {
    let store = ProfileStore::new("/home/me/.chatgpt-status".to_owned());
    assert_eq!(store.root(), "/home/me/.chatgpt-status");
    assert_eq!(store.profiles_dir(), "/home/me/.chatgpt-status/profiles");
    assert_eq!(store.profile_home("work"), "/home/me/.chatgpt-status/profiles/work");
    assert_eq!(store.config_file(), "/home/me/.chatgpt-status/config.json");
    assert_eq!(store.temporary_config_file(), "/home/me/.chatgpt-status/.config.json.tmp");
}

#[test]
fn listing_keeps_valid_directories_sorted_by_name() {
    let store = ProfileStore::new("/s".to_owned());
    let entries = vec![
        entry("work", true, false),
        entry("bad name", true, true),
        entry("notes.txt", false, false),
        entry("main", true, true),
        ProfileEntry { name: None, is_dir: true, has_auth: false },
        entry("alpha", true, false),
    ];
    let profiles = store.profiles_from_entries(&entries);
    let names: Vec<&str> = profiles.iter().map(|p| p.name.as_str()).collect();
    assert_eq!(names, vec!["alpha", "main", "work"]);
    assert!(profiles[1].authenticated);
    assert_eq!(profiles[1].home, "/s/profiles/main");
}

fn profiles() -> Vec<Profile> {
    let store = ProfileStore::new("/s".to_owned());
    store.profiles_from_entries(&vec![entry("main", true, true), entry("work", true, false)])
}

#[test]
fn resolve_prefers_name_then_default_then_single_profile() {
    let store = ProfileStore::new("/s".to_owned());
    let all = profiles();
    assert_eq!(store.resolve(&all, None, Some("work")).unwrap().name, "work");
    let stored = Some(Some(Config { schema_version: 2, default_profile: Some("main".to_owned()) }));
    assert_eq!(store.resolve(&all, stored, None).unwrap().name, "main");
    assert!(matches!(store.resolve(&all, None, None), Err(Error::NoDefaultProfile)));
    let single = vec![all[1].clone()];
    assert_eq!(store.resolve(&single, None, None).unwrap().name, "work");
    assert!(matches!(store.resolve(&all, None, Some("other")), Err(Error::ProfileNotFound)));
}

#[test]
fn invalid_configuration_is_an_error_even_with_a_name() {
    let store = ProfileStore::new("/s".to_owned());
    let all = profiles();
    let stored = Some(Some(Config { schema_version: 7, default_profile: None }));
    assert!(matches!(store.resolve(&all, stored, Some("main")), Err(Error::InvalidConfig)));
    assert!(matches!(store.resolve(&all, Some(None), Some("main")), Err(Error::InvalidConfig)));
    assert!(matches!(store.default_name(Some(None)), Err(Error::InvalidConfig)));
    assert_eq!(store.default_name(None).unwrap(), None);
    let config = store.load_config(None).unwrap();
    assert_eq!(config, Config { schema_version: 3, default_profile: None });
}

#[test]
fn set_default_writes_schema_three_and_then_resolves() {
    let store = ProfileStore::new("/s".to_owned());
    let all = profiles();
    let written = store.set_default(&all, None, "work").unwrap();
    assert_eq!(written, Config { schema_version: 3, default_profile: Some("work".to_owned()) });
    assert_eq!(store.resolve(&all, Some(Some(written)), None).unwrap().name, "work");
    assert!(matches!(store.set_default(&all, None, "missing"), Err(Error::ProfileNotFound)));
}

#[test]
fn login_requires_force_for_authenticated_profile() {
    let profile = Profile { name: "main".to_owned(), home: "/s/profiles/main".to_owned(), authenticated: true };
    let error = check_login(&profile, false).unwrap_err();
    assert!(matches!(&error, Error::AlreadyAuthenticated { profile } if profile == "main"));
    assert_eq!(error.message(), "profile 'main' is already authenticated; use --force to log in again");
    assert!(check_login(&profile, true).is_ok());
    let fresh = Profile { authenticated: false, ..profile };
    assert!(check_login(&fresh, false).is_ok());
}

#[test]
fn error_messages() {
    assert_eq!(Error::NoDefaultProfile.message(), "no default profile is configured");
    assert_eq!(
        Error::PrivateCreditsRateLimited { retry_after_seconds: Some(30) }.message(),
        "private credit lookup was rate limited; retry after Some(30) seconds"
    );
    assert_eq!(
        Error::PrivateCreditsRateLimited { retry_after_seconds: None }.message(),
        "private credit lookup was rate limited; retry after None seconds"
    );
    assert_eq!(
        Error::InvalidProfileName.message(),
        "profile name may only contain letters, numbers, '-', '_', and '.'"
    );
}

#[test]
fn legacy_store_lists_profile_directories() {
    let store = ProfileStore::new("/tmp/store".to_owned());
    let listed = store.profiles_from_entries(&vec![entry("main", true, true)]);
    assert_eq!(listed.len(), 1);
    assert!(listed[0].authenticated);
    let legacy = Config { schema_version: 2, default_profile: Some("main".to_owned()) };
    assert_eq!(store.resolve(&listed, Some(Some(legacy)), None).unwrap().name, "main");
}

#[test]
fn store_root_follows_the_environment_order() {
    let s = |v: &str| Some(v.to_owned());
    let store = ProfileStore::from_locations(s("/a"), s("/b"), s("/home/me")).unwrap();
    assert_eq!(store.root(), "/a");
    let store = ProfileStore::from_locations(None, s("/b"), s("/home/me")).unwrap();
    assert_eq!(store.root(), "/b");
    let store = ProfileStore::from_locations(None, None, s("/home/me")).unwrap();
    assert_eq!(store.root(), "/home/me/.chatgpt-status");
    assert!(matches!(ProfileStore::from_locations(None, None, None), Err(Error::HomeUnavailable)));
}

#[test]
fn codex_program_follows_the_environment_order() {
    let s = |v: &str| Some(v.to_owned());
    assert_eq!(ai_monitor::codex::codex_binary(s("/opt/codex"), s("/legacy/codex")), "/opt/codex");
    assert_eq!(ai_monitor::codex::codex_binary(None, s("/legacy/codex")), "/legacy/codex");
    assert_eq!(ai_monitor::codex::codex_binary(None, None), "codex");
}

#[test]
fn private_credit_lookup_statuses() {
    let failure = ai_monitor::codex::private_credits_failure;
    assert!(failure(200, None).is_none());
    assert!(failure(204, Some(5)).is_none());
    assert!(matches!(
        failure(429, Some(30)),
        Some(Error::PrivateCreditsRateLimited { retry_after_seconds: Some(30) })
    ));
    assert!(matches!(failure(429, None), Some(Error::PrivateCreditsRateLimited { retry_after_seconds: None })));
    assert!(matches!(failure(401, None), Some(Error::PrivateCredits)));
    assert!(matches!(failure(500, Some(1)), Some(Error::PrivateCredits)));
    assert!(matches!(failure(302, None), Some(Error::PrivateCredits)));
}

use deep_social::error::{Error, ErrorKind};
use deep_social::identity::Identity;
use deep_social::profiles::{default_ledger, default_roster, InitArg, Profile, ProfileStore, SeedUser};

fn user(n: u8) -> Identity {
    Identity::from_bytes(&vec![9, n]).unwrap()
}

fn empty_store() -> ProfileStore {
    ProfileStore::init(Some(InitArg { seed_users: Some(vec![]), token_canister_id: Some(user(0)) }), 1)
}

#[test]
fn identity_bytes_round_trip() {
    let bytes: Vec<u8> = (1..=29).collect();
    let id = Identity::from_bytes(&bytes).unwrap();
    assert_eq!(id.to_bytes(), bytes);
    assert_eq!(Identity::from_bytes(&vec![]).unwrap().to_bytes(), Vec::<u8>::new());
    let too_long: Vec<u8> = (1..=30).collect();
    assert_eq!(Identity::from_bytes(&too_long), None);
    assert!(user(1).same(&user(1)));
    assert!(!user(1).same(&user(2)));
    assert!(!Identity::from_bytes(&vec![0]).unwrap().same(&Identity::from_bytes(&vec![]).unwrap()));
}

#[test]
fn identity_from_text_parses_principals() {
    assert_eq!(Identity::from_text("2vxsx-fae"), Some(Identity::anonymous()));
    assert_eq!(Identity::anonymous().to_bytes(), vec![4]);
    assert_eq!(Identity::from_text("aaaaa-aa").unwrap().to_bytes(), Vec::<u8>::new());
    assert_eq!(Identity::from_text("not a principal"), None);
    assert_eq!(Identity::from_text("2vxsx-faf"), None);
    let ledger = Identity::from_text("uzt4z-lp777-77774-qaabq-cai").unwrap();
    assert_eq!(ledger.to_bytes().len(), 10);
}

#[test]
fn defaults_come_from_the_built_in_table() {
    let roster = default_roster();
    let texts = ["aaaaa-aa", "bbbbb-bb", "ccccc-cc"];
    let names = ["Alice", "Bob", "Charlie"];
    let mut expected: Vec<(Identity, &str)> = Vec::new();
    for k in 0..3 {
        if let Some(id) = Identity::from_text(texts[k]) {
            expected.push((id, names[k]));
        }
    }
    assert_eq!(roster.len(), expected.len());
    for (u, (id, name)) in roster.iter().zip(expected.iter()) {
        assert_eq!(u.user_principal, *id);
        assert_eq!(u.name, *name);
    }
    assert_eq!(roster[0].name, "Alice");
    assert_eq!(roster[0].email, "alice@example.com");
    assert_eq!(roster[0].avatar_key, Some("alice_avatar.png".to_string()));
    assert_eq!(Some(default_ledger()), Identity::from_text("uzt4z-lp777-77774-qaabq-cai"));
    let store = ProfileStore::init(None, 3);
    assert_eq!(store.token_canister_id, default_ledger());
    assert_eq!(store.profiles.len(), roster.len());
    let alice = store.get_profile(roster[0].user_principal).unwrap();
    assert_eq!(alice.name, "Alice");
    assert_eq!(alice.created_at_ns, 3);
    let store = ProfileStore::init(Some(InitArg { seed_users: None, token_canister_id: Some(user(5)) }), 3);
    assert_eq!(store.token_canister_id, user(5));
    assert_eq!(store.profiles.len(), roster.len());
}

#[test]
fn a_later_seed_replaces_an_earlier_one() {
    let seed = |n: u8, name: &str| SeedUser {
        user_principal: user(n),
        avatar_key: None,
        name: name.to_string(),
        email: format!("{name}@example.com"),
    };
    let store = ProfileStore::init(
        Some(InitArg { seed_users: Some(vec![seed(1, "a"), seed(2, "b"), seed(1, "c")]), token_canister_id: None }),
        8,
    );
    assert_eq!(store.profiles.len(), 2);
    assert_eq!(store.get_profile(user(1)).unwrap().name, "c");
    assert_eq!(store.get_profile(user(1)).unwrap().email, "c@example.com");
    assert_eq!(store.get_profile(user(2)).unwrap().name, "b");
    assert_eq!(store.get_profile(user(3)), None);
    assert_eq!(store.token_canister_id, default_ledger());
}

#[test]
fn ensure_makes_a_profile_once() {
    let mut store = empty_store();
    let first = store.ensure_user(user(1), Some("Ann".to_string()), None, Some("a.png".to_string()), 50);
    assert_eq!(
        first.profile,
        Profile {
            user_principal: user(1),
            name: "Ann".to_string(),
            email: String::new(),
            avatar_key: Some("a.png".to_string()),
            created_at_ns: 50,
        }
    );
    assert_eq!(first.airdrop_via, Some(user(0)));
    assert_eq!(store.get_my_profile(user(1)), Some(first.profile.clone()));
    let second = store.ensure_user(user(1), Some("Other".to_string()), Some("o@x".to_string()), None, 60);
    assert_eq!(second.profile, first.profile);
    assert_eq!(second.airdrop_via, None);
    assert_eq!(store.profiles.len(), 1);
}

#[test]
fn ensure_fills_in_the_defaults() {
    let mut store = empty_store();
    let made = store.ensure_user(user(2), None, None, None, 5);
    assert_eq!(made.profile.name, "New User");
    assert_eq!(made.profile.email, "");
    assert_eq!(made.profile.avatar_key, None);
    assert_eq!(made.profile.created_at_ns, 5);
}

#[test]
fn update_overwrites_only_what_is_given() {
    let mut store = empty_store();
    let r = store.update_profile(user(1), Some("x".to_string()), None, None);
    assert_eq!(r, Err(Error::ProfileNotFound));
    assert_eq!(Error::ProfileNotFound.kind(), ErrorKind::NotFound);
    assert_eq!(Error::ProfileNotFound.message(), "profile not found");
    assert!(store.profiles.is_empty());
    store.ensure_user(user(1), Some("Ann".to_string()), Some("a@x".to_string()), Some("a.png".to_string()), 50);
    store.ensure_user(user(2), Some("Bob".to_string()), None, None, 51);
    let p = store.update_profile(user(1), None, Some("ann@x".to_string()), None).unwrap();
    assert_eq!(p.name, "Ann");
    assert_eq!(p.email, "ann@x");
    assert_eq!(p.avatar_key, Some("a.png".to_string()));
    assert_eq!(p.created_at_ns, 50);
    let p = store.update_profile(user(1), Some("Anna".to_string()), None, Some("b.png".to_string())).unwrap();
    assert_eq!(p.name, "Anna");
    assert_eq!(p.email, "ann@x");
    assert_eq!(p.avatar_key, Some("b.png".to_string()));
    assert_eq!(store.get_profile(user(1)), Some(p));
    assert_eq!(store.get_profile(user(2)).unwrap().name, "Bob");
    assert_eq!(store.get_my_profile(user(3)), None);
}

fn named(names: &[&str]) -> ProfileStore {
    let mut store = empty_store();
    for (k, name) in names.iter().enumerate() {
        store.ensure_user(user(k as u8 + 1), Some(name.to_string()), None, None, k as u64);
    }
    store
}

#[test]
fn search_ignores_letter_case_and_sorts_by_name() {
    let store = named(&["bob", "Alice", "alina", "ALbert", "Zed"]);
    let found: Vec<String> = store.search_profiles_by_name("AL".to_string(), 0, 10).into_iter().map(|p| p.name).collect();
    assert_eq!(found, vec!["ALbert", "Alice", "alina"]);
    let found: Vec<String> = store.search_profiles_by_name("al".to_string(), 1, 1).into_iter().map(|p| p.name).collect();
    assert_eq!(found, vec!["Alice"]);
    assert!(store.search_profiles_by_name("al".to_string(), 3, 5).is_empty());
    assert!(store.search_profiles_by_name("al".to_string(), 0, 0).is_empty());
    assert!(store.search_profiles_by_name("xyz".to_string(), 0, 5).is_empty());
    let all: Vec<String> = store.search_profiles_by_name(String::new(), 0, 10).into_iter().map(|p| p.name).collect();
    assert_eq!(all, vec!["ALbert", "Alice", "Zed", "alina", "bob"]);
    let found = store.search_profiles_by_name("\u{c9}D".to_string(), 0, 10);
    assert!(found.is_empty());
    let store = named(&["Zo\u{e9}", "ZO\u{c9}"]);
    assert_eq!(store.search_profiles_by_name("o\u{c9}".to_string(), 0, 10).len(), 2);
}

#[test]
fn search_keeps_registry_order_among_equal_names() {
    let store = named(&["Sam", "Al", "Sam", "Sam"]);
    let found: Vec<Identity> =
        store.search_profiles_by_name("sam".to_string(), 0, 10).into_iter().map(|p| p.user_principal).collect();
    assert_eq!(found, vec![user(1), user(3), user(4)]);
}

#[test]
fn pick_by_name_goes_by_the_texts_given() {
    let store = named(&["b", "a", "c"]);
    let lowered = vec!["x1".to_string(), "y".to_string(), "x2".to_string()];
    let found: Vec<String> = store.pick_by_name(&lowered, "x", 0, 5).into_iter().map(|p| p.name).collect();
    assert_eq!(found, vec!["b", "c"]);
    let found: Vec<String> = store.pick_by_name(&lowered, "", 0, 5).into_iter().map(|p| p.name).collect();
    assert_eq!(found, vec!["a", "b", "c"]);
    assert!(store.pick_by_name(&lowered, "x12", 0, 5).is_empty());
}

#[test]
fn registry_survives_a_restart() {
    let store = named(&["Ann", "Bob"]);
    assert!(store.is_valid());
    let kept = store.snapshot();
    assert_eq!(kept.profiles, store.profiles);
    assert_eq!(kept.token_canister_id, store.token_canister_id);
    let back = ProfileStore::restore(Some(kept));
    assert_eq!(back.profiles, store.profiles);
    assert_eq!(back.token_canister_id, user(0));
    let blank = ProfileStore::restore(None);
    assert!(blank.profiles.is_empty());
    assert_eq!(blank.token_canister_id, Identity::anonymous());
    let mut broken = store.snapshot();
    let twin = broken.profiles[0].clone();
    broken.profiles.push(twin);
    assert!(!broken.is_valid());
    let back = ProfileStore::restore(Some(broken));
    assert!(back.profiles.is_empty());
    assert_eq!(back.token_canister_id, Identity::anonymous());
}

use flyo::auth::{
    build_session_cookie, extract_session_cookie, find_login, gen_token, CurrentUser, SessionStore,
};
use flyo::config::{Config, Perms, User};

fn cfg_with_users() -> Config {
    Config {
        users: vec![
            User {
                name: "alice".into(),
                pass: "p1".into(),
                perms: Perms {
                    access: true,
                    list: true,
                    upload: true,
                    modify: true,
                    ..Default::default()
                },
            },
            User {
                name: "bob".into(),
                pass: "p2".into(),
                perms: Perms {
                    access: true,
                    list: true,
                    ..Default::default()
                },
            },
        ],
        ..Config::default()
    }
}

#[test]
fn token_is_32_chars_alnum() {
    let t = gen_token();
    assert_eq!(t.len(), 32);
    assert!(t.chars().all(|c| c.is_ascii_alphanumeric()));
    // Two consecutive tokens should not collide.
    assert_ne!(t, gen_token());
}

#[test]
fn session_lifecycle() {
    let mut store = SessionStore::new();
    assert_eq!(store.len(), 0);
    let t = store.create("alice");
    assert_eq!(store.len(), 1);
    assert_eq!(store.resolve(&t).as_deref(), Some("alice"));
    store.evict(&t);
    assert_eq!(store.len(), 0);
    assert!(store.resolve(&t).is_none());
}

#[test]
fn drop_by_user_clears_all_their_sessions() {
    let mut store = SessionStore::new();
    let _t1 = store.create("alice");
    let _t2 = store.create("alice"); // multiple devices
    let t3 = store.create("bob");
    assert_eq!(store.len(), 3);
    store.drop_by_user("alice");
    assert_eq!(store.len(), 1);
    assert_eq!(store.resolve(&t3).as_deref(), Some("bob"));
}

#[test]
fn no_cookie_yields_guest() {
    let cfg = cfg_with_users();
    let store = SessionStore::new();
    let cu = CurrentUser::from_token(&cfg, &store, None);
    assert!(cu.user.is_none());
    assert!(cu.perms.access && cu.perms.list);
    assert!(!cu.perms.upload);
}

#[test]
fn valid_session_yields_user_perms() {
    let cfg = cfg_with_users();
    let mut store = SessionStore::new();
    let t = store.create("alice");
    let cu = CurrentUser::from_token(&cfg, &store, Some(&t));
    assert_eq!(cu.user.as_deref(), Some("alice"));
    assert!(cu.perms.upload);
    assert!(cu.perms.modify);
}

#[test]
fn session_for_removed_user_falls_back_to_guest() {
    let mut cfg = cfg_with_users();
    let mut store = SessionStore::new();
    let t = store.create("alice");
    // Simulate config reload that drops alice.
    cfg.users.retain(|u| u.name != "alice");
    let cu = CurrentUser::from_token(&cfg, &store, Some(&t));
    assert!(cu.user.is_none(), "stale session must not impersonate");
}

#[test]
fn build_cookie_set_and_clear() {
    let set = build_session_cookie(Some("abc"));
    assert!(set.contains("flyo_sid=abc"));
    assert!(set.contains("HttpOnly"));
    assert!(set.contains("SameSite=Lax"));
    let clear = build_session_cookie(None);
    assert!(clear.contains("Max-Age=0"));
}

#[test]
fn cookies_are_exact() {
    assert_eq!(build_session_cookie(Some("abc")), "flyo_sid=abc; Path=/; HttpOnly; SameSite=Lax");
    assert_eq!(build_session_cookie(None), "flyo_sid=; Path=/; HttpOnly; SameSite=Lax; Max-Age=0");
}

#[test]
fn unknown_token_yields_guest() {
    let cfg = cfg_with_users();
    let mut store = SessionStore::new();
    let _ = store.create("bob");
    let cu = CurrentUser::from_token(&cfg, &store, Some("nope"));
    assert!(cu.user.is_none());
    assert_eq!(cu.perms, cfg.guest);
}

#[test]
fn evicting_one_token_keeps_the_other() {
    let mut store = SessionStore::new();
    let a = store.create("alice");
    let b = store.create("alice");
    store.evict(&a);
    assert!(store.resolve(&a).is_none());
    assert_eq!(store.resolve(&b).as_deref(), Some("alice"));
    store.evict("not-a-token");
    assert_eq!(store.len(), 1);
}

#[test]
fn session_cookie_is_found_among_others() {
    let vals = vec!["a=1; b=2".to_string(), "x=y;  flyo_sid=TOKEN ; z=3".to_string()];
    assert_eq!(extract_session_cookie(&vals).as_deref(), Some("TOKEN"));
    let vals = vec!["a=1; flyo_sid=first".to_string(), "flyo_sid=second".to_string()];
    assert_eq!(extract_session_cookie(&vals).as_deref(), Some("first"));
    let vals = vec!["a=1; flyo_sidx=2".to_string()];
    assert_eq!(extract_session_cookie(&vals), None);
    assert_eq!(extract_session_cookie(&vec![]), None);
}

#[test]
fn login_needs_matching_name_and_password() {
    let cfg = cfg_with_users();
    assert_eq!(find_login(&cfg, "bob", "p2"), Some(1));
    assert_eq!(find_login(&cfg, "bob", "p1"), None);
    assert_eq!(find_login(&cfg, "carol", "p1"), None);
}

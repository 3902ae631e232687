use std::path::PathBuf;

use flyo::config::{Config, ConfigErrorKind, Perms, User};

#[test]
fn parses_basic_config() {
    let text = r#"
            # comment
            Webd.Root /mnt/sda1
            Webd.Listen 9212
            Webd.Listen [::]:9212
            Webd.User rlumS user1 pass1
            Webd.User rl user2 pass2
            Webd.Guest rl
            Webd.Hide
        "#;
    let cfg = Config::parse(text).unwrap();
    assert_eq!(PathBuf::from(&cfg.root), PathBuf::from("/mnt/sda1"));
    assert_eq!(cfg.listen.len(), 2);
    assert_eq!(cfg.listen[0], "0.0.0.0:9212");
    assert_eq!(cfg.listen[1], "[::]:9212");
    assert_eq!(cfg.users.len(), 2);
    assert_eq!(cfg.users[0].name, "user1");
    assert!(cfg.users[0].perms.modify);
    assert!(cfg.users[0].perms.show_hidden);
    assert!(!cfg.users[1].perms.modify);
    assert!(cfg.hide_tray);
}

#[test]
fn quoted_path_with_spaces() {
    let text = r#"Webd.Root "D:\my share""#;
    let cfg = Config::parse(text).unwrap();
    assert_eq!(PathBuf::from(&cfg.root), PathBuf::from(r"D:\my share"));
}

#[test]
fn guest_zero_disables_all() {
    let cfg = Config::parse("Webd.Guest 0").unwrap();
    assert!(!cfg.guest.access && !cfg.guest.list);
}

#[test]
fn perms_roundtrip() {
    let p = Perms::from_tag("rlumS");
    assert_eq!(p.to_tag(), "rlumS");
    let p = Perms::from_tag("0");
    assert_eq!(p.to_tag(), "0");
}

#[test]
fn caps_users_at_three_with_warning() {
    let text = "
            Webd.User r u1 p1
            Webd.User r u2 p2
            Webd.User r u3 p3
            Webd.User r u4 p4
        ";
    let cfg = Config::parse(text).unwrap();
    assert_eq!(cfg.users.len(), 3);
}

#[test]
fn empty_text_gets_default_listen_and_guest() {
    let cfg = Config::parse("").unwrap();
    assert_eq!(cfg.listen, vec!["0.0.0.0:9212".to_string()]);
    assert_eq!(cfg.guest, Perms::guest_default());
    assert!(cfg.users.is_empty());
    assert_eq!(cfg.root, "");
    assert!(!cfg.hide_tray);
    assert!(cfg.browser.is_none());
}

#[test]
fn directives_are_case_insensitive_and_crlf_is_trimmed() {
    let cfg = Config::parse("WEBD.ROOT /srv\r\nwebd.listen 10.0.0.1:80\r\n").unwrap();
    assert_eq!(cfg.root, "/srv");
    assert_eq!(cfg.listen, vec!["10.0.0.1:80".to_string()]);
}

#[test]
fn non_numeric_listen_is_kept_as_is() {
    let cfg = Config::parse("Webd.Listen localhost").unwrap();
    assert_eq!(cfg.listen, vec!["localhost".to_string()]);
}

#[test]
fn browser_and_unknown_directives() {
    let cfg = Config::parse("Webd.Browser \"C:\\Program Files\\ff.exe\"\nWebd.Nothing x\n").unwrap();
    assert_eq!(cfg.browser.as_deref(), Some("C:\\Program Files\\ff.exe"));
    let cfg = Config::parse("Webd.Browser").unwrap();
    assert!(cfg.browser.is_none());
}

#[test]
fn each_missing_argument_is_reported_with_its_line() {
    let e = Config::parse("# c\nWebd.Root").unwrap_err();
    assert_eq!(e.line, 2);
    assert_eq!(e.kind, ConfigErrorKind::RootRequiresPath);
    assert_eq!(e.message(), "line 2: Webd.Root requires a path");
    let e = Config::parse("Webd.Listen").unwrap_err();
    assert_eq!(e.kind, ConfigErrorKind::ListenRequiresAddress);
    assert_eq!(e.message(), "line 1: Webd.Listen requires an address or port");
    let e = Config::parse("Webd.User rl alice").unwrap_err();
    assert_eq!(e.kind, ConfigErrorKind::UserRequiresTagUserPass);
    assert_eq!(e.message(), "line 1: Webd.User requires <perm_tag> <user> <pass>");
    let e = Config::parse("\n\n\nWebd.Guest").unwrap_err();
    assert_eq!(e.line, 4);
    assert_eq!(e.kind, ConfigErrorKind::GuestRequiresTag);
    assert_eq!(e.message(), "line 4: Webd.Guest requires a perm tag");
}

#[test]
fn first_error_wins_over_later_lines() {
    let e = Config::parse("Webd.Root\nWebd.Listen").unwrap_err();
    assert_eq!(e.line, 1);
}

#[test]
fn tag_letters_map_to_flags_and_unknown_letters_are_ignored() {
    let p = Perms::from_tag("xTDz");
    assert!(p.play_media && p.force_download);
    assert!(!p.access && !p.list && !p.upload && !p.modify && !p.show_hidden);
    assert_eq!(Perms::from_tag("DTSmulr").to_tag(), "rlumSTD");
    assert_eq!(Perms::from_tag("").to_tag(), "0");
    assert_eq!(Perms::from_tag("00"), Perms::default());
}

#[test]
fn every_perm_set_roundtrips_through_its_tag() {
    for bits in 0u32..128 {
        let p = Perms {
            access: bits & 1 != 0,
            list: bits & 2 != 0,
            upload: bits & 4 != 0,
            modify: bits & 8 != 0,
            show_hidden: bits & 16 != 0,
            play_media: bits & 32 != 0,
            force_download: bits & 64 != 0,
        };
        assert_eq!(Perms::from_tag(&p.to_tag()), p);
    }
}

#[test]
fn user_fields_come_from_tag_name_and_pass() {
    let cfg = Config::parse("Webd.User rl bob secret").unwrap();
    let u: &User = &cfg.users[0];
    assert_eq!(u.name, "bob");
    assert_eq!(u.pass, "secret");
    assert!(u.perms.access && u.perms.list && !u.perms.upload);
}

#[test]
fn listen_lines_are_kept_in_order_and_default_only_without_them() {
    let cfg = Config::parse("Webd.Listen 80\nwebd.LISTEN [::]:81\n").unwrap();
    assert_eq!(cfg.listen, vec!["0.0.0.0:80".to_string(), "[::]:81".to_string()]);
    assert_eq!(cfg.guest, Perms::guest_default());
    let cfg = Config::parse("Webd.Root /srv\n").unwrap();
    assert_eq!(cfg.listen, vec!["0.0.0.0:9212".to_string()]);
    assert_eq!(cfg.guest, Perms::guest_default());
}

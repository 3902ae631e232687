use flyo::config::Perms;
use flyo::handlers::{
    authorize, content_type_for, content_type_for_on, default_path, parse_range, plan_download, rand_suffix, suffix_char, upload_temp_extension, Action,
    Download,
};

#[test]
fn parse_full_range() {
    assert_eq!(parse_range(Some("bytes=0-99"), 200), Some(Ok((0, 99))));
}

#[test]
fn parse_open_range() {
    assert_eq!(parse_range(Some("bytes=50-"), 200), Some(Ok((50, 199))));
}

#[test]
fn parse_suffix_range() {
    assert_eq!(parse_range(Some("bytes=-30"), 200), Some(Ok((170, 199))));
}

#[test]
fn parse_first_of_multi_range() {
    assert_eq!(parse_range(Some("bytes=0-9,20-29"), 100), Some(Ok((0, 9))));
}

#[test]
fn rejects_unsatisfiable_range() {
    assert_eq!(parse_range(Some("bytes=500-600"), 100), Some(Err(())));
}

#[test]
fn rejects_backwards_range() {
    assert_eq!(parse_range(Some("bytes=99-0"), 200), Some(Err(())));
}

#[test]
fn no_header_means_no_range() {
    assert_eq!(parse_range(None, 200), None);
}

#[test]
fn malformed_range_headers_are_refused() {
    assert_eq!(parse_range(Some("items=0-1"), 200), Some(Err(())));
    assert_eq!(parse_range(Some("bytes=5"), 200), Some(Err(())));
    assert_eq!(parse_range(Some("bytes=a-9"), 200), Some(Err(())));
    assert_eq!(parse_range(Some("bytes=abc-10"), 200), Some(Err(())));
    assert_eq!(parse_range(Some("bytes=-"), 200), Some(Err(())));
    assert_eq!(parse_range(Some(""), 200), Some(Err(())));
    assert_eq!(parse_range(Some("bytes= 3-4 ,x"), 200), Some(Ok((3, 4))));
    assert_eq!(parse_range(Some("bytes=+3-+4"), 200), Some(Ok((3, 4))));
}

#[test]
fn suffix_ranges_of_zero_or_too_many_bytes_fail() {
    assert_eq!(parse_range(Some("bytes=-0"), 200), Some(Err(())));
    assert_eq!(parse_range(Some("bytes=-201"), 200), Some(Err(())));
    assert_eq!(parse_range(Some("bytes=-200"), 200), Some(Ok((0, 199))));
    assert_eq!(parse_range(Some("bytes=0-"), 0), Some(Err(())));
}

#[test]
fn download_plans() {
    match plan_download(Some("bytes=10-19"), 100, false, Some("a.txt")) {
        Download::Content { status, start, end, length, content_range, content_disposition } => {
            assert_eq!((status, start, end, length), (206, 10, 19, 10));
            assert_eq!(content_range.as_deref(), Some("bytes 10-19/100"));
            assert!(content_disposition.is_none());
        }
        _ => panic!("expected content"),
    }
    match plan_download(None, 100, true, Some("we\"ird.txt")) {
        Download::Content { status, start, end, length, content_range, content_disposition } => {
            assert_eq!((status, start, end, length), (200, 0, 99, 100));
            assert!(content_range.is_none());
            assert_eq!(content_disposition.as_deref(), Some("attachment; filename=\"weird.txt\""));
        }
        _ => panic!("expected content"),
    }
    match plan_download(Some("bytes=100-"), 100, true, None) {
        Download::Unsatisfiable { content_range } => assert_eq!(content_range, "bytes */100"),
        _ => panic!("expected 416"),
    }
    match plan_download(None, 0, true, None) {
        Download::Content { status, length, content_disposition, .. } => {
            assert_eq!((status, length), (200, 1));
            assert_eq!(content_disposition.as_deref(), Some("attachment; filename=\"file\""));
        }
        _ => panic!("expected content"),
    }
}

#[test]
fn permission_gates_follow_the_tags() {
    let reader = Perms::from_tag("rl");
    assert!(authorize(reader, Action::List).is_ok());
    assert!(authorize(reader, Action::Download).is_ok());
    assert_eq!(authorize(reader, Action::Upload).unwrap_err(), "missing 'u' permission");
    assert_eq!(authorize(reader, Action::Mkdir).unwrap_err(), "missing 'u' permission");
    assert_eq!(authorize(reader, Action::Rename).unwrap_err(), "missing 'm' permission");
    assert_eq!(authorize(reader, Action::Delete).unwrap_err(), "missing 'm' permission");
    let none = Perms::from_tag("0");
    assert_eq!(authorize(none, Action::List).unwrap_err(), "missing 'l' permission");
    assert_eq!(authorize(none, Action::Download).unwrap_err(), "missing 'r' permission");
}

#[test]
fn default_path_is_root() {
    assert_eq!(default_path(), "/");
}

#[test]
fn mime_types_follow_extensions() {
    assert_eq!(content_type_for("/srv/a.txt"), "text/plain");
    assert_eq!(content_type_for("/srv/page.html"), "text/html");
    assert_eq!(content_type_for("/srv/blob"), "application/octet-stream");
}

#[test]
fn upload_suffixes_are_lowercase_alphanumeric() {
    let s = rand_suffix();
    assert_eq!(s.len(), 8);
    assert!(s.chars().all(|c| c.is_ascii_lowercase() || c.is_ascii_digit()));
}

#[test]
fn upload_temp_keeps_the_target_extension() {
    let t = upload_temp_extension("txt");
    assert_eq!(t.len(), "txt.flyo-tmp-".len() + 8);
    assert!(t.starts_with("txt.flyo-tmp-"));
    assert!(t[13..].chars().all(|c| c.is_ascii_lowercase() || c.is_ascii_digit()));

    let bare = upload_temp_extension("");
    assert_eq!(bare.len(), "flyo-tmp-".len() + 8);
    assert!(bare.starts_with("flyo-tmp-"));
}

#[test]
fn suffix_draws_map_to_letters_then_digits() {
    assert_eq!(suffix_char(0), 'a');
    assert_eq!(suffix_char(25), 'z');
    assert_eq!(suffix_char(26), '0');
    assert_eq!(suffix_char(35), '9');
}

#[test]
fn content_types_follow_the_platform_path_rules() {
    assert_eq!(content_type_for_on("x\\.png", false), "image/png");
    assert_eq!(content_type_for_on("x\\.png", true), "application/octet-stream");
    assert_eq!(content_type_for_on("C:pic.PNG", true), "image/png");
    assert_eq!(content_type_for_on("/srv/.bashrc", false), "application/octet-stream");
    assert_eq!(content_type_for_on("/srv/a.", false), "application/octet-stream");
    assert_eq!(content_type_for_on("/srv/site.d/", false), "application/octet-stream");
    assert_eq!(content_type_for_on("/srv/a.tar.gz", false), "application/gzip");
}

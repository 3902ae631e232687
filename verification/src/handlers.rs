//! Request rules of the file API.
//!
//! Permission gates mirror webd's tag semantics:
//!   /api/list    requires `l`
//!   /api/file    requires `r` (Range-aware download)
//!   /api/upload  requires `u`
//!   /api/mkdir   requires `u`
//!   /api/rename  requires `m`
//!   /api/delete  requires `m`
//!
//! All `path` query parameters are routed through `fs_ops::resolve`.
use vstd::prelude::*;

use crate::auth::random_below;
use crate::fs_ops::{backslash_separates, extension_for, extension_of};
use crate::config::Perms;
use crate::fs_ops::Entry;
use crate::text::{
    all_digits, digits_value, is_digit, lead_from, split_prefix, trail_to, unsigned_digits, chars_of, dec_string, has_prefix, is_ascii_alnum, lemma_deep_view_index, parse_u64,
    parse_unsigned, push_chars, push_decimal, push_str, slice_to_vec, split_chars, split_on,
    starts_with_str, string_of, trim, trim_chars,
};

verus! {

// ---------------------------------------------------------------- queries

/// `?path=` query of most endpoints.
#[derive(Clone, Debug)]
pub struct PathQuery {
    pub path: String,
}

/// `?from=&to=` query of the rename endpoint.
#[derive(Clone, Debug)]
pub struct RenameQuery {
    pub from: String,
    pub to: String,
}

/// Body of a directory listing.
#[derive(Clone, Debug)]
pub struct ListResponse {
    pub path: String,
    pub entries: Vec<Entry>,
}

/// The path a query without `path` names: the share root.
pub fn default_path() -> (p: String)
    ensures
        p@ == "/"@,
{
    string_of(chars_of("/").as_slice())
}

// ------------------------------------------------------------ permissions

/// The file API's endpoints.
#[derive(Clone, Copy, Debug, PartialEq, Eq, Structural)]
pub enum Action {
    List,
    Download,
    Upload,
    Mkdir,
    Rename,
    Delete,
}

/// Whether a permission set allows an endpoint.
pub open spec fn permits(p: Perms, a: Action) -> bool {
    match a {
        Action::List => p.list,
        Action::Download => p.access,
        Action::Upload => p.upload,
        Action::Mkdir => p.upload,
        Action::Rename => p.modify,
        Action::Delete => p.modify,
    }
}

/// The tag letter an endpoint needs.
pub open spec fn required_letter(a: Action) -> char {
    match a {
        Action::List => 'l',
        Action::Download => 'r',
        Action::Upload => 'u',
        Action::Mkdir => 'u',
        Action::Rename => 'm',
        Action::Delete => 'm',
    }
}

/// Admit a request, or give the reason of the 403 answer:
/// `missing '<letter>' permission`.
pub fn authorize(p: Perms, a: Action) -> (r: Result<(), String>)
    ensures
        match r {
            Ok(()) => permits(p, a),
            Err(m) => !permits(p, a) && m@ == "missing '"@ + seq![required_letter(a)] + "' permission"@,
        },
{
    let (ok, letter) = match a {
        Action::List => (p.list, 'l'),
        Action::Download => (p.access, 'r'),
        Action::Upload => (p.upload, 'u'),
        Action::Mkdir => (p.upload, 'u'),
        Action::Rename => (p.modify, 'm'),
        Action::Delete => (p.modify, 'm'),
    };
    if ok {
        Ok(())
    } else {
        let mut v: Vec<char> = Vec::new();
        push_str(&mut v, "missing '");
        v.push(letter);
        push_str(&mut v, "' permission");
        proof {
            assert(v@ =~= "missing '"@ + seq![required_letter(a)] + "' permission"@);
        }
        Err(string_of(v.as_slice()))
    }
}

// ------------------------------------------------------------------ ranges

/// Index of the first `c` at or after `i`, if any.
pub open spec fn first_index_from(s: Seq<char>, c: char, i: int) -> Option<int>
    decreases s.len() - i,
{
    if i < 0 || i >= s.len() {
        None
    } else if s[i] == c {
        Some(i)
    } else {
        first_index_from(s, c, i + 1)
    }
}

pub open spec fn parse_u64_spec(s: Seq<char>) -> Option<u64> {
    match parse_unsigned(s, u64::MAX as nat) {
        Some(v) => Some(v as u64),
        None => None,
    }
}

/// A single `Range: bytes=start-end` header for a file of `total` bytes:
/// `None` when there is no header, `Some(Ok((start, end)))` for a
/// satisfiable range, `Some(Err(()))` for a header that is malformed or
/// cannot be served. Only the first of several ranges is considered.
pub open spec fn range_of(h: Option<Seq<char>>, total: u64) -> Option<Result<(u64, u64), ()>> {
    match h {
        None => None,
        Some(s) => if !has_prefix(s, "bytes="@) {
            Some(Err(()))
        } else {
            let rest = s.skip(6);
            let first = trim(split_on(rest, ',')[0]);
            match first_index_from(first, '-', 0) {
                None => Some(Err(())),
                Some(d) => {
                    let a = first.take(d);
                    let b = first.skip(d + 1);
                    if a.len() == 0 {
                        match parse_u64_spec(b) {
                            None => Some(Err(())),
                            Some(n) => if n == 0 || n > total {
                                Some(Err(()))
                            } else {
                                Some(Ok(((total - n) as u64, (total - 1) as u64)))
                            },
                        }
                    } else {
                        match parse_u64_spec(a) {
                            None => Some(Err(())),
                            Some(start) => {
                                let end = if b.len() == 0 {
                                    Some(if total == 0 { 0u64 } else { (total - 1) as u64 })
                                } else {
                                    parse_u64_spec(b)
                                };
                                match end {
                                    None => Some(Err(())),
                                    Some(end) => if start > end || end >= total {
                                        Some(Err(()))
                                    } else {
                                        Some(Ok((start, end)))
                                    },
                                }
                            },
                        }
                    }
                },
            }
        },
    }
}

fn parse_u64_opt(s: &[char]) -> (r: Option<u64>)
    ensures
        r == parse_u64_spec(s@),
{
    parse_u64(s)
}

fn find_first(s: &[char], c: char) -> (r: Option<usize>)
    ensures
        match r {
            Some(i) => first_index_from(s@, c, 0) == Some(i as int) && i < s@.len(),
            None => first_index_from(s@, c, 0) is None,
        },
{
    let mut i: usize = 0;
    while i < s.len()
        invariant
            0 <= i <= s@.len(),
            first_index_from(s@, c, 0) == first_index_from(s@, c, i as int),
        decreases s@.len() - i,
    {
        if s[i] == c {
            return Some(i);
        }
        i = i + 1;
    }
    None
}

pub open spec fn opt_str_view(o: Option<&str>) -> Option<Seq<char>> {
    match o {
        Some(s) => Some(s@),
        None => None,
    }
}

/// Parse a `Range` header value (see [`range_of`]).
pub fn parse_range(h: Option<&str>, total: u64) -> (r: Option<Result<(u64, u64), ()>>)
    ensures
        r == range_of(opt_str_view(h), total),
{
    proof {
        reveal_strlit("bytes=");
    }
    let s = match h {
        None => {
            return None;
        },
        Some(s) => chars_of(s),
    };
    if !starts_with_str(s.as_slice(), "bytes=") {
        return Some(Err(()));
    }
    let rest = slice_to_vec(s.as_slice(), 6, s.len());
    proof {
        assert(rest@ =~= s@.skip(6));
    }
    let pieces = split_chars(rest.as_slice(), ',');
    proof {
        lemma_split_nonempty(rest@, ',');
        lemma_deep_view_index(pieces, 0);
    }
    let first = trim_chars(pieces[0].as_slice());
    let d = match find_first(first.as_slice(), '-') {
        None => {
            return Some(Err(()));
        },
        Some(d) => d,
    };
    let len = first.len();
    let a = slice_to_vec(first.as_slice(), 0, d);
    let b = slice_to_vec(first.as_slice(), d + 1, len);
    proof {
        assert(a@ =~= first@.take(d as int));
        assert(b@ =~= first@.skip(d + 1));
    }
    if a.len() == 0 {
        let n = match parse_u64_opt(b.as_slice()) {
            None => {
                return Some(Err(()));
            },
            Some(n) => n,
        };
        if n == 0 || n > total {
            return Some(Err(()));
        }
        Some(Ok((total - n, total - 1)))
    } else {
        let start = match parse_u64_opt(a.as_slice()) {
            None => {
                return Some(Err(()));
            },
            Some(v) => v,
        };
        let end = if b.len() == 0 {
            total.saturating_sub(1)
        } else {
            match parse_u64_opt(b.as_slice()) {
                None => {
                    return Some(Err(()));
                },
                Some(v) => v,
            }
        };
        if start > end || end >= total {
            return Some(Err(()));
        }
        Some(Ok((start, end)))
    }
}

proof fn lemma_split_nonempty(s: Seq<char>, sep: char)
    ensures
        split_on(s, sep).len() >= 1,
{
}

// --------------------------------------------------------------- download

/// `mime_guess::from_ext(ext).first_or_octet_stream()`, as text: the MIME
/// type of a file extension (case-insensitive, from mime_guess's fixed
/// table), or `application/octet-stream`.
pub uninterp spec fn mime_for_ext(ext: Seq<char>) -> Seq<char>;

/// The MIME type `mime_guess` associates with an extension. The value is
/// named, not stated, except that an empty extension gets
/// `application/octet-stream` (`from_ext` returns an empty guess for it).
#[verifier::external_body]
fn guess_mime(ext: &str) -> (m: String)
    ensures
        m@ == mime_for_ext(ext@),
        ext@.len() == 0 ==> m@ == "application/octet-stream"@,
{
    mime_guess::from_ext(ext).first_or_octet_stream().as_ref().to_string()
}

/// The MIME type served for a path: that of its extension, by the path
/// rules of Windows (`windows`) or of other systems (see
/// [`extension_of`]); a path without one gets the type of the empty
/// extension, `application/octet-stream`.
pub open spec fn content_type(path: Seq<char>, windows: bool) -> Seq<char> {
    mime_for_ext(
        match extension_of(path, windows) {
            Some(e) => e,
            None => Seq::empty(),
        },
    )
}

/// The MIME type served for a path under the given path rules (see
/// [`content_type`]).
pub fn content_type_for_on(path: &str, windows: bool) -> (m: String)
    ensures
        m@ == content_type(path@, windows),
        extension_of(path@, windows) is None ==> m@ == "application/octet-stream"@,
{
    match extension_for(path, windows) {
        Some(e) => {
            let t = string_of(e.as_slice());
            guess_mime(t.as_str())
        },
        None => {
            proof {
                reveal_strlit("");
                assert(""@ =~= Seq::<char>::empty());
            }
            guess_mime("")
        },
    }
}

/// The MIME type served for a path by this platform's path rules.
pub fn content_type_for(path: &str) -> (m: String)
    ensures
        m@ == content_type(path@, false) || m@ == content_type(path@, true),
{
    content_type_for_on(path, backslash_separates())
}

/// How a download request is answered.
pub enum Download {
    /// 416 with this `Content-Range` value.
    Unsatisfiable { content_range: String },
    /// 200 or 206: `length` bytes from offset `start`.
    Content {
        status: u16,
        start: u64,
        end: u64,
        length: u64,
        content_range: Option<String>,
        content_disposition: Option<String>,
    },
}

pub open spec fn sat_sub(a: u64, b: u64) -> u64 {
    if a >= b {
        (a - b) as u64
    } else {
        0
    }
}

pub open spec fn sat_add(a: u64, b: u64) -> u64 {
    if a + b <= u64::MAX {
        (a + b) as u64
    } else {
        u64::MAX
    }
}

/// `s` with every double quote removed.
pub open spec fn without_quotes(s: Seq<char>) -> Seq<char> {
    s.filter(|c: char| c != '"')
}

/// The `Content-Disposition` of a forced download.
pub open spec fn attachment_header(name: Seq<char>) -> Seq<char> {
    "attachment; filename=\""@ + without_quotes(name) + "\""@
}

pub open spec fn opt_string_view(o: Option<String>) -> Option<Seq<char>> {
    match o {
        Some(s) => Some(s@),
        None => None,
    }
}

/// The answer to a download of a `total`-byte file: the range served (the
/// whole file without a usable `Range` header), its length, the
/// `Content-Range` of a partial answer, and an attachment header when the
/// `D` permission forces downloads (a nameless file is called `file`).
pub open spec fn download_matches(
    d: Download,
    range: Option<Seq<char>>,
    total: u64,
    force_download: bool,
    file_name: Option<Seq<char>>,
) -> bool {
    match range_of(range, total) {
        Some(Err(())) => d matches Download::Unsatisfiable { content_range } && content_range@
            == "bytes */"@ + dec_string(total as nat),
        r => {
            let (start, end, status) = match r {
                Some(Ok((s, e))) => (s, e, 206u16),
                _ => (0u64, sat_sub(total, 1), 200u16),
            };
            &&& d matches Download::Content {
                status: st,
                start: s,
                end: e,
                length,
                content_range,
                content_disposition,
            }
            &&& st == status && s == start && e == end
            &&& length == sat_add(sat_sub(end, start), 1)
            &&& opt_string_view(content_range) == if status == 206 {
                Some(
                    "bytes "@ + dec_string(start as nat) + "-"@ + dec_string(end as nat) + "/"@
                        + dec_string(total as nat),
                )
            } else {
                None
            }
            &&& opt_string_view(content_disposition) == if force_download {
                Some(
                    attachment_header(
                        match file_name {
                            Some(n) => n,
                            None => "file"@,
                        },
                    ),
                )
            } else {
                None
            }
        },
    }
}

fn push_without_quotes(v: &mut Vec<char>, s: &[char])
    ensures
        final(v)@ == old(v)@ + without_quotes(s@),
{
    let mut i: usize = 0;
    let ghost start = v@;
    while i < s.len()
        invariant
            0 <= i <= s@.len(),
            v@ == start + without_quotes(s@.take(i as int)),
        decreases s@.len() - i,
    {
        proof {
            assert(s@.take(i + 1).drop_last() =~= s@.take(i as int));
            reveal_with_fuel(Seq::<char>::filter, 1);
        }
        if s[i] != '"' {
            v.push(s[i]);
        }
        proof {
            assert(v@ =~= start + without_quotes(s@.take(i + 1)));
        }
        i = i + 1;
    }
    proof {
        assert(s@.take(s@.len() as int) =~= s@);
    }
}

/// Plan the answer to a download request (see [`download_matches`]).
pub fn plan_download(range: Option<&str>, total: u64, force_download: bool, file_name: Option<&str>) -> (d: Download)
    ensures
        download_matches(d, opt_str_view(range), total, force_download, opt_str_view(file_name)),
{
    let (start, end, status) = match parse_range(range, total) {
        Some(Ok((s, e))) => (s, e, 206u16),
        Some(Err(())) => {
            let mut v: Vec<char> = Vec::new();
            push_str(&mut v, "bytes */");
            push_decimal(&mut v, total);
            return Download::Unsatisfiable { content_range: string_of(v.as_slice()) };
        },
        None => (0u64, total.saturating_sub(1), 200u16),
    };
    let length = end.saturating_sub(start).saturating_add(1);
    let content_range = if status == 206 {
        let mut v: Vec<char> = Vec::new();
        push_str(&mut v, "bytes ");
        push_decimal(&mut v, start);
        push_str(&mut v, "-");
        push_decimal(&mut v, end);
        push_str(&mut v, "/");
        push_decimal(&mut v, total);
        Some(string_of(v.as_slice()))
    } else {
        None
    };
    let content_disposition = if force_download {
        let name = match file_name {
            Some(n) => chars_of(n),
            None => chars_of("file"),
        };
        let mut v: Vec<char> = Vec::new();
        push_str(&mut v, "attachment; filename=\"");
        push_without_quotes(&mut v, name.as_slice());
        push_str(&mut v, "\"");
        Some(string_of(v.as_slice()))
    } else {
        None
    };
    Download::Content { status, start, end, length, content_range, content_disposition }
}

// ----------------------------------------------------------------- upload

/// The `i`-th character of `a..z 0..9`.
pub open spec fn suffix_alphabet(i: int) -> char {
    if i < 26 {
        ((i + 97) as u32) as char
    } else {
        ((i - 26 + 48) as u32) as char
    }
}

/// The character an upload-suffix draw `k` stands for.
pub fn suffix_char(k: usize) -> (c: char)
    requires
        k < 36,
    ensures
        c == suffix_alphabet(k as int),
        is_ascii_alnum(c),
        !('A' <= c && c <= 'Z'),
{
    if k < 26 {
        ((k as u8) + 97) as char
    } else {
        ((k as u8) - 26 + 48) as char
    }
}

/// A random 8-character suffix of lowercase letters and digits, naming the
/// temporary file an upload is streamed into: each character is
/// [`suffix_char`] of one draw below 36.
pub fn rand_suffix() -> (s: String)
    ensures
        s@.len() == 8,
        forall|i: int| 0 <= i < s@.len() ==> is_ascii_alnum(#[trigger] s@[i]) && !('A' <= s@[i]
            && s@[i] <= 'Z'),
{
    let mut v: Vec<char> = Vec::new();
    let mut i: usize = 0;
    while i < 8
        invariant
            0 <= i <= 8,
            v@.len() == i,
            forall|k: int| 0 <= k < v@.len() ==> is_ascii_alnum(#[trigger] v@[k]) && !('A' <= v@[k]
                && v@[k] <= 'Z'),
        decreases 8 - i,
    {
        let k = random_below(36);
        let c = suffix_char(k);
        v.push(c);
        i = i + 1;
    }
    string_of(v.as_slice())
}

/// The extension of an upload's temporary file: the target's own extension
/// and a dot (when it has one), `flyo-tmp-`, then the random suffix.
pub open spec fn temp_extension(ext: Seq<char>, suffix: Seq<char>) -> Seq<char> {
    (if ext.len() == 0 {
        Seq::<char>::empty()
    } else {
        ext.push('.')
    }) + "flyo-tmp-"@ + suffix
}

/// The extension for the temporary sibling of an upload target whose own
/// extension is `ext` (empty when it has none), with a fresh random suffix
/// (see [`temp_extension`] and [`rand_suffix`]).
pub fn upload_temp_extension(ext: &str) -> (r: String)
    ensures
        r@.len() >= 8,
        r@ == temp_extension(ext@, r@.skip(r@.len() - 8)),
        forall|i: int| r@.len() - 8 <= i < r@.len() ==> is_ascii_alnum(#[trigger] r@[i]) && !('A'
            <= r@[i] && r@[i] <= 'Z'),
{
    let suffix = rand_suffix();
    let e = chars_of(ext);
    let mut v: Vec<char> = Vec::new();
    if e.len() > 0 {
        push_chars(&mut v, e.as_slice());
        v.push('.');
    }
    let ghost own = v@;
    assert(own =~= (if ext@.len() == 0 {
        Seq::<char>::empty()
    } else {
        ext@.push('.')
    }));
    push_str(&mut v, "flyo-tmp-");
    let ghost head = v@;
    push_str(&mut v, suffix.as_str());
    proof {
        assert(v@.skip(v@.len() - 8) =~= suffix@);
        assert(v@ =~= temp_extension(ext@, suffix@));
        assert forall|i: int| v@.len() - 8 <= i < v@.len() implies is_ascii_alnum(
            #[trigger] v@[i],
        ) && !('A' <= v@[i] && v@[i] <= 'Z') by {
            assert(v@[i] == suffix@[i - head.len()]);
        }
    }
    string_of(v.as_slice())
}


/// A satisfiable range lies inside the file; a suffix range `-n` covers
/// exactly the last `n` bytes.
/// A header that is present always gets an answer: `None` means exactly
/// that there was no header.
pub proof fn law_range_within_file(h: Option<Seq<char>>, total: u64)
    ensures
        range_of(h, total) matches Some(Ok((s, e))) ==> s <= e && e < total,
        range_of(h, total) is None <==> h is None,
{
}

proof fn lemma_split_without_sep(s: Seq<char>, sep: char, i: int)
    requires
        0 <= i <= s.len(),
        forall|k: int| 0 <= k < s.len() ==> s[k] != sep,
    ensures
        split_prefix(s, sep, i) == (Seq::<Seq<char>>::empty(), s.take(i)),
    decreases i,
{
    if i > 0 {
        lemma_split_without_sep(s, sep, i - 1);
        assert(s.take(i) =~= s.take(i - 1).push(s[i - 1]));
    }
}

/// A suffix range `bytes=-n` with `1 <= n <= total` (`n` written in decimal
/// digits) covers exactly the last `n` bytes.
pub proof fn law_suffix_range(d: Seq<char>, total: u64)
    requires
        d.len() > 0,
        all_digits(d),
        1 <= digits_value(d) <= total,
    ensures
        range_of(Some("bytes=-"@ + d), total) == Some(
            Ok::<(u64, u64), ()>(((total - digits_value(d)) as u64, (total - 1) as u64)),
        ),
{
    reveal_strlit("bytes=-");
    reveal_strlit("bytes=");
    let s = "bytes=-"@ + d;
    assert(s.take(6) =~= "bytes="@);
    let rest = s.skip(6);
    assert(rest =~= seq!['-'] + d);
    assert forall|k: int| 0 <= k < rest.len() implies rest[k] != ',' by {
        if k > 0 {
            assert(rest[k] == d[k - 1]);
            assert(is_digit(d[k - 1]));
        }
    }
    lemma_split_without_sep(rest, ',', rest.len() as int);
    assert(rest.take(rest.len() as int) =~= rest);
    assert(split_on(rest, ',')[0] == rest);
    assert(lead_from(rest, 0) == 0);
    assert(is_digit(d[d.len() - 1]));
    assert(rest[rest.len() - 1] == d[d.len() - 1]);
    assert(trail_to(rest, 0, rest.len() as int) == rest.len());
    assert(rest.subrange(0, rest.len() as int) =~= rest);
    assert(trim(rest) == rest);
    assert(first_index_from(rest, '-', 0) == Some(0int));
    assert(rest.take(0) =~= Seq::<char>::empty());
    assert(rest.skip(1) =~= d);
    assert(is_digit(d[0]));
    assert(unsigned_digits(d) == d);
}

/// A download answer never serves past the file: a satisfiable range's
/// length is `end - start + 1`, at most the file size.
pub proof fn law_download_length(d: Download, h: Option<Seq<char>>, total: u64, force: bool, name: Option<Seq<char>>)
    requires
        download_matches(d, h, total, force, name),
        range_of(h, total) matches Some(Ok(_)),
    ensures
        d matches Download::Content { start, end, length, status, .. } && status == 206 && length
            == end - start + 1 && length <= total,
{
}

proof fn lemma_first_index_after(s: Seq<char>, c: char, i: int, n: int)
    requires
        0 <= i <= n < s.len(),
        s[n] == c,
        forall|k: int| i <= k < n ==> s[k] != c,
    ensures
        first_index_from(s, c, i) == Some(n),
    decreases n - i,
{
    if i < n {
        lemma_first_index_after(s, c, i + 1, n);
    }
}

/// `trim` keeps a text that starts and ends with a non-whitespace
/// character.
proof fn lemma_trim_keeps(s: Seq<char>)
    requires
        s.len() > 0,
        !crate::text::is_ws(s[0]),
        !crate::text::is_ws(s[s.len() - 1]),
    ensures
        trim(s) == s,
{
    assert(lead_from(s, 0) == 0);
    assert(trail_to(s, 0, s.len() as int) == s.len());
    assert(s.subrange(0, s.len() as int) =~= s);
}

/// `bytes=<a>-<b>` (decimal digits) asks for bytes `a` to `b`: served when
/// `a <= b < total`, refused (416) otherwise; `bytes=<a>-` asks for the
/// rest of the file from `a`, served when `a < total`.
pub proof fn law_explicit_range(a: Seq<char>, b: Seq<char>, total: u64)
    requires
        a.len() > 0,
        all_digits(a),
        all_digits(b),
        digits_value(a) <= u64::MAX,
        digits_value(b) <= u64::MAX,
    ensures
        b.len() > 0 ==> range_of(Some("bytes="@ + a + seq!['-'] + b), total) == if digits_value(a)
            <= digits_value(b) && digits_value(b) < total {
            Some(Ok::<(u64, u64), ()>((digits_value(a) as u64, digits_value(b) as u64)))
        } else {
            Some(Err::<(u64, u64), ()>(()))
        },
        b.len() == 0 ==> range_of(Some("bytes="@ + a + seq!['-']), total) == if digits_value(a) < total {
            Some(Ok::<(u64, u64), ()>((digits_value(a) as u64, (total - 1) as u64)))
        } else {
            Some(Err::<(u64, u64), ()>(()))
        },
{
    reveal_strlit("bytes=");
    let s = "bytes="@ + a + seq!['-'] + b;
    assert(s.take(6) =~= "bytes="@);
    let rest = s.skip(6);
    assert(rest =~= a + seq!['-'] + b);
    assert forall|k: int| 0 <= k < rest.len() implies rest[k] != ',' by {
        if k < a.len() {
            assert(rest[k] == a[k]);
            assert(is_digit(a[k]));
        } else if k > a.len() {
            assert(rest[k] == b[k - a.len() - 1]);
            assert(is_digit(b[k - a.len() - 1]));
        }
    }
    lemma_split_without_sep(rest, ',', rest.len() as int);
    assert(rest.take(rest.len() as int) =~= rest);
    assert(split_on(rest, ',')[0] == rest);
    assert(is_digit(a[0]));
    assert(rest[0] == a[0]);
    if b.len() > 0 {
        assert(is_digit(b[b.len() - 1]));
        assert(rest[rest.len() - 1] == b[b.len() - 1]);
    } else {
        assert(rest[rest.len() - 1] == '-');
    }
    lemma_trim_keeps(rest);
    assert forall|k: int| 0 <= k < a.len() implies rest[k] != '-' by {
        assert(rest[k] == a[k]);
        assert(is_digit(a[k]));
    }
    lemma_first_index_after(rest, '-', 0, a.len() as int);
    assert(rest.take(a.len() as int) =~= a);
    assert(rest.skip(a.len() as int + 1) =~= b);
    assert(unsigned_digits(a) == a);
    if b.len() > 0 {
        assert(is_digit(b[0]));
        assert(unsigned_digits(b) == b);
    }
    assert(s == "bytes="@ + a + seq!['-'] + b);
    if b.len() == 0 {
        assert("bytes="@ + a + seq!['-'] + b =~= "bytes="@ + a + seq!['-']);
    }
}

/// Without a `Range` header a non-empty file is served whole with 200 and
/// no `Content-Range`; a header that cannot be served gets 416 with
/// `bytes */<size>`.
pub proof fn law_download_whole_or_refused(
    d: Download,
    h: Option<Seq<char>>,
    total: u64,
    force: bool,
    name: Option<Seq<char>>,
)
    requires
        download_matches(d, h, total, force, name),
    ensures
        h is None && total > 0 ==> (d matches Download::Content {
            status,
            start,
            end,
            length,
            content_range,
            ..
        } && status == 200 && start == 0 && end == total - 1 && length == total && content_range is None),
        range_of(h, total) == Some(Err::<(u64, u64), ()>(())) ==> (d matches Download::Unsatisfiable {
            content_range,
        } && content_range@ == "bytes */"@ + dec_string(total as nat)),
{
}

/// Each endpoint is allowed exactly by its tag letter.
pub proof fn law_gates_follow_tags(tag: Seq<char>, a: Action)
    requires
        tag != seq!['0'],
    ensures
        permits(crate::config::perms_of_tag(tag), a) == tag.contains(required_letter(a)),
{
}

} // verus!

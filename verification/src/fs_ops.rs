//! Path resolution and directory-listing rules of the file API.
//!
//! Every request names a virtual `path` (the URL `?path=...` parameter,
//! always interpreted relative to the share root). [`resolve`] rejects
//! anything that would walk out of the root via `..`; it is the single
//! chokepoint that prevents path traversal across the API surface. Paths
//! are split by the platform's rules: at `/`, and on Windows also at `\`,
//! where drive, UNC, device and verbatim prefixes are refused too.
//! [`confine`] refuses a target that a symbolic link takes out of the root,
//! once the caller has followed the links on disk.
use vstd::prelude::*;

use crate::config::Config;
use crate::text::{
    has_prefix, chars_eq, split_prefix, chars_eq_str, chars_of, hex_string, lemma_deep_view_index, push_chars, push_radix, push_str,
    split_chars, split_on, string_of,
};

verus! {

/// Why a file operation failed.
#[derive(Clone, Debug)]
pub enum FsError {
    /// The path is outside the share root.
    Traversal,
    NotFound,
    NotADirectory,
    NotAFile,
    AlreadyExists,
    /// An operating-system error, with its message.
    Io(String),
}

pub open spec fn fs_error_text(e: FsError) -> Seq<char> {
    match e {
        FsError::Traversal => "path is outside the share root"@,
        FsError::NotFound => "not found"@,
        FsError::NotADirectory => "not a directory"@,
        FsError::NotAFile => "not a regular file"@,
        FsError::AlreadyExists => "already exists"@,
        FsError::Io(m) => "io error: "@ + m@,
    }
}

/// The HTTP status an error is answered with.
pub open spec fn fs_error_status(e: FsError) -> u16 {
    match e {
        FsError::Traversal => 400,
        FsError::NotFound => 404,
        FsError::NotADirectory => 400,
        FsError::NotAFile => 400,
        FsError::AlreadyExists => 409,
        FsError::Io(_) => 500,
    }
}

impl FsError {
    /// The error as a sentence.
    pub fn message(&self) -> (m: String)
        ensures
            m@ == fs_error_text(*self),
    {
        let mut v: Vec<char> = Vec::new();
        match self {
            FsError::Traversal => push_str(&mut v, "path is outside the share root"),
            FsError::NotFound => push_str(&mut v, "not found"),
            FsError::NotADirectory => push_str(&mut v, "not a directory"),
            FsError::NotAFile => push_str(&mut v, "not a regular file"),
            FsError::AlreadyExists => push_str(&mut v, "already exists"),
            FsError::Io(m) => {
                push_str(&mut v, "io error: ");
                push_str(&mut v, m.as_str());
            },
        }
        string_of(v.as_slice())
    }

    /// The HTTP status code of the error response.
    pub fn status(&self) -> (s: u16)
        ensures
            s == fs_error_status(*self),
    {
        match self {
            FsError::Traversal => 400,
            FsError::NotFound => 404,
            FsError::NotADirectory => 400,
            FsError::NotAFile => 400,
            FsError::AlreadyExists => 409,
            FsError::Io(_) => 500,
        }
    }
}

// ----------------------------------------------------------------- resolve

/// Index of the first character at or after `i` that is not `c`.
pub open spec fn skip_char_from(s: Seq<char>, c: char, i: int) -> int
    decreases s.len() - i,
{
    if 0 <= i < s.len() && s[i] == c {
        skip_char_from(s, c, i + 1)
    } else {
        i
    }
}

/// The path with its leading slashes removed (`trim_start_matches('/')`).
pub open spec fn without_leading_slashes(s: Seq<char>) -> Seq<char> {
    s.skip(skip_char_from(s, '/', 0))
}

/// Whether `c` separates path components: `/` everywhere, and `\` on
/// Windows.
pub open spec fn is_sep(c: char, windows: bool) -> bool {
    c == '/' || (windows && c == '\\')
}

/// The path with every separator written as `/`.
pub open spec fn unify_seps(s: Seq<char>, windows: bool) -> Seq<char> {
    s.map_values(|c: char| if is_sep(c, windows) { '/' } else { c })
}

/// A Windows drive designator such as `C:` at the start of a component.
pub open spec fn drive_form(p: Seq<char>) -> bool {
    p.len() >= 2 && p[1] == ':' && (('a' <= p[0] && p[0] <= 'z') || ('A' <= p[0] && p[0] <= 'Z'))
}

/// Two leading separators: a Windows UNC, device or verbatim prefix.
pub open spec fn unc_form(raw: Seq<char>, windows: bool) -> bool {
    windows && raw.len() >= 2 && is_sep(raw[0], windows) && is_sep(raw[1], windows)
}

/// A piece that is refused: `..` (a parent), or on Windows a drive prefix.
/// A drive prefix is refused in any piece, not only the first: on Windows
/// `PathBuf::push` of a component such as `c:x` replaces the whole path,
/// so joining it would leave the share root.
pub open spec fn refused_piece(p: Seq<char>, windows: bool) -> bool {
    p == ".."@ || (windows && drive_form(p))
}

/// The normal components among the first `i` pieces, or `None` once a
/// refused piece has been met. Empty pieces and `.` are skipped.
pub open spec fn safe_parts(pieces: Seq<Seq<char>>, i: int, windows: bool) -> Option<Seq<Seq<char>>>
    decreases i,
{
    if i <= 0 {
        Some(Seq::empty())
    } else {
        match safe_parts(pieces, i - 1, windows) {
            None => None,
            Some(acc) => {
                let p = pieces[i - 1];
                if refused_piece(p, windows) {
                    None
                } else if p.len() == 0 || p == "."@ {
                    Some(acc)
                } else {
                    Some(acc.push(p))
                }
            },
        }
    }
}

/// Components joined with `/`.
pub open spec fn join_parts(parts: Seq<Seq<char>>) -> Seq<char>
    decreases parts.len(),
{
    if parts.len() == 0 {
        Seq::empty()
    } else if parts.len() == 1 {
        parts[0]
    } else {
        join_parts(parts.drop_last()) + seq!['/'] + parts.last()
    }
}

/// `PathBuf::join` of a relative path: a separator is added unless the
/// base is empty or already ends with one.
pub open spec fn path_join(base: Seq<char>, rel: Seq<char>, windows: bool) -> Seq<char> {
    if base.len() == 0 || is_sep(base.last(), windows) {
        base + rel
    } else {
        base + seq!['/'] + rel
    }
}

/// The pieces of a virtual path: leading `/` removed, then split at every
/// separator of the platform.
pub open spec fn path_pieces(virtual_path: Seq<char>, windows: bool) -> Seq<Seq<char>> {
    split_on(unify_seps(without_leading_slashes(virtual_path), windows), '/')
}

/// Where a virtual path lies on disk: under the share root, or `None` when
/// it would escape it through `..`, or on Windows (`windows`) through a
/// drive, UNC, device or verbatim prefix.
pub open spec fn resolved_path(root: Seq<char>, virtual_path: Seq<char>, windows: bool) -> Option<
    Seq<char>,
> {
    if unc_form(without_leading_slashes(virtual_path), windows) {
        None
    } else {
        let pieces = path_pieces(virtual_path, windows);
        match safe_parts(pieces, pieces.len() as int, windows) {
            Some(parts) => Some(path_join(root, join_parts(parts), windows)),
            None => None,
        }
    }
}

/// Whether `r` is what resolving `virtual_path` under `root` gives.
pub open spec fn resolves_as(
    r: Result<String, FsError>,
    root: Seq<char>,
    virtual_path: Seq<char>,
    windows: bool,
) -> bool {
    match r {
        Ok(p) => resolved_path(root, virtual_path, windows) == Some(p@),
        Err(e) => resolved_path(root, virtual_path, windows) is None && e == FsError::Traversal,
    }
}

/// `std::path::is_separator('\\')`: whether this platform's paths separate
/// components with a backslash (Windows). It depends on the machine, so
/// nothing is stated of it.
#[verifier::external_body]
pub(crate) fn backslash_separates() -> bool {
    std::path::is_separator('\\')
}

fn unify(s: &[char], windows: bool) -> (r: Vec<char>)
    ensures
        r@ == unify_seps(s@, windows),
{
    let mut out: Vec<char> = Vec::new();
    let mut i: usize = 0;
    while i < s.len()
        invariant
            0 <= i <= s@.len(),
            out@ == unify_seps(s@.take(i as int), windows),
        decreases s@.len() - i,
    {
        let c = s[i];
        out.push(if c == '/' || (windows && c == '\\') { '/' } else { c });
        proof {
            assert(unify_seps(s@.take(i + 1), windows) =~= unify_seps(s@.take(i as int), windows).push(
                if is_sep(c, windows) { '/' } else { c },
            ));
        }
        i = i + 1;
    }
    proof {
        assert(s@.take(s@.len() as int) =~= s@);
    }
    out
}

fn is_drive_form(p: &[char]) -> (r: bool)
    ensures
        r == drive_form(p@),
{
    p.len() >= 2 && p[1] == ':' && (('a' <= p[0] && p[0] <= 'z') || ('A' <= p[0] && p[0] <= 'Z'))
}

// ------------------------------------------------------------ extensions

/// The pieces of a path after any Windows prefix: a drive `X:`, or after
/// two leading separators a server and share (or `?` / `.` and the name
/// that follows), each piece between separators.
pub open spec fn body_pieces(path: Seq<char>, windows: bool) -> Seq<Seq<char>> {
    let u = unify_seps(path, windows);
    if windows && u.len() >= 2 && u[0] == '/' && u[1] == '/' {
        let ps = split_on(u.skip(2), '/');
        if ps.len() >= 2 && ps[0].len() > 0 && ps[1].len() > 0 {
            ps.skip(2)
        } else {
            ps
        }
    } else if windows && drive_form(u) {
        split_on(u.skip(2), '/')
    } else {
        split_on(u, '/')
    }
}

/// The last of the first `i` pieces that is neither empty nor `.`.
pub open spec fn last_piece(pieces: Seq<Seq<char>>, i: int) -> Option<Seq<char>>
    decreases i,
{
    if i <= 0 {
        None
    } else if pieces[i - 1].len() == 0 || pieces[i - 1] == "."@ {
        last_piece(pieces, i - 1)
    } else {
        Some(pieces[i - 1])
    }
}

/// `Path::file_name`: the last component, when it is a normal one.
pub open spec fn file_name_of(path: Seq<char>, windows: bool) -> Option<Seq<char>> {
    let ps = body_pieces(path, windows);
    match last_piece(ps, ps.len() as int) {
        Some(p) => if p == ".."@ {
            None
        } else {
            Some(p)
        },
        None => None,
    }
}

/// Index of the last `.` among the first `i` characters.
pub open spec fn last_dot(s: Seq<char>, i: int) -> Option<int>
    decreases i,
{
    if i <= 0 {
        None
    } else if s[i - 1] == '.' {
        Some(i - 1)
    } else {
        last_dot(s, i - 1)
    }
}

/// `Path::extension`: what follows the last `.` of the file name, unless
/// that dot is its first character (a dot-file) or there is none.
pub open spec fn extension_of(path: Seq<char>, windows: bool) -> Option<Seq<char>> {
    match file_name_of(path, windows) {
        None => None,
        Some(f) => match last_dot(f, f.len() as int) {
            None => None,
            Some(d) => if d == 0 {
                None
            } else {
                Some(f.skip(d + 1))
            },
        },
    }
}

pub open spec fn opt_chars_view(o: Option<Vec<char>>) -> Option<Seq<char>> {
    match o {
        Some(v) => Some(v@),
        None => None,
    }
}

/// The extension of a path by the path rules of Windows (`windows`) or of
/// other systems (see [`extension_of`]).
pub fn extension_for(path: &str, windows: bool) -> (r: Option<Vec<char>>)
    ensures
        opt_chars_view(r) == extension_of(path@, windows),
{
    let v = chars_of(path);
    let u = unify(v.as_slice(), windows);
    let n = u.len();
    let pieces: Vec<Vec<char>> = if windows && n >= 2 && u[0] == '/' && u[1] == '/' {
        let rest = crate::text::slice_to_vec(u.as_slice(), 2, n);
        proof {
            assert(rest@ =~= u@.skip(2));
        }
        let ps = split_chars(rest.as_slice(), '/');
        proof {
            if ps@.len() >= 1 {
                lemma_deep_view_index(ps, 0);
            }
            if ps@.len() >= 2 {
                lemma_deep_view_index(ps, 1);
            }
        }
        if ps.len() >= 2 && ps[0].len() > 0 && ps[1].len() > 0 {
            let mut out: Vec<Vec<char>> = Vec::new();
            let mut k: usize = 2;
            while k < ps.len()
                invariant
                    2 <= k <= ps@.len(),
                    out.deep_view() =~= ps.deep_view().subrange(2, k as int),
                decreases ps@.len() - k,
            {
                proof {
                    lemma_deep_view_index(ps, k as int);
                }
                crate::text::push_seq(&mut out, ps[k].clone());
                proof {
                    assert(ps.deep_view().subrange(2, k + 1) =~= ps.deep_view().subrange(
                        2,
                        k as int,
                    ).push(ps.deep_view()[k as int]));
                }
                k = k + 1;
            }
            proof {
                assert(ps.deep_view().skip(2) =~= ps.deep_view().subrange(2, ps@.len() as int));
            }
            out
        } else {
            ps
        }
    } else if windows && is_drive_form(u.as_slice()) {
        let rest = crate::text::slice_to_vec(u.as_slice(), 2, n);
        proof {
            assert(rest@ =~= u@.skip(2));
        }
        split_chars(rest.as_slice(), '/')
    } else {
        split_chars(u.as_slice(), '/')
    };
    assert(pieces.deep_view() == body_pieces(path@, windows));
    let mut i: usize = pieces.len();
    while i > 0 && (pieces[i - 1].len() == 0 || chars_eq_str(pieces[i - 1].as_slice(), "."))
        invariant
            0 <= i <= pieces@.len(),
            last_piece(pieces.deep_view(), i as int) == last_piece(
                pieces.deep_view(),
                pieces@.len() as int,
            ),
        decreases i,
    {
        proof {
            lemma_deep_view_index(pieces, i - 1);
        }
        i = i - 1;
    }
    if i == 0 {
        return None;
    }
    proof {
        lemma_deep_view_index(pieces, i - 1);
    }
    let f = pieces[i - 1].as_slice();
    if chars_eq_str(f, "..") {
        return None;
    }
    let mut j: usize = f.len();
    while j > 0 && f[j - 1] != '.'
        invariant
            0 <= j <= f@.len(),
            last_dot(f@, j as int) == last_dot(f@, f@.len() as int),
        decreases j,
    {
        j = j - 1;
    }
    if j <= 1 {
        return None;
    }
    let ext = crate::text::slice_to_vec(f, j, f.len());
    proof {
        assert(ext@ =~= f@.skip(j as int));
    }
    Some(ext)
}

/// Resolve a user-supplied virtual path against the configured share root,
/// by the path rules of Windows (`windows`) or of other systems (see
/// [`resolved_path`]). The file system is not touched.
pub fn resolve_for(cfg: &Config, virtual_path: &str, windows: bool) -> (r: Result<String, FsError>)
    ensures
        resolves_as(r, cfg.root@, virtual_path@, windows),
{
    let v = chars_of(virtual_path);
    let mut start: usize = 0;
    while start < v.len() && v[start] == '/'
        invariant
            0 <= start <= v@.len(),
            skip_char_from(v@, '/', start as int) == skip_char_from(v@, '/', 0),
        decreases v@.len() - start,
    {
        start = start + 1;
    }
    let raw = crate::text::slice_to_vec(v.as_slice(), start, v.len());
    proof {
        assert(raw@ =~= without_leading_slashes(virtual_path@));
    }
    if windows && raw.len() >= 2 && (raw[0] == '/' || raw[0] == '\\') && (raw[1] == '/' || raw[1]
        == '\\') {
        return Err(FsError::Traversal);
    }
    let norm = unify(raw.as_slice(), windows);
    let pieces = split_chars(norm.as_slice(), '/');
    let mut rel: Vec<char> = Vec::new();
    let ghost mut parts: Seq<Seq<char>> = Seq::empty();
    let mut has_parts = false;
    let mut i: usize = 0;
    while i < pieces.len()
        invariant
            0 <= i <= pieces@.len(),
            pieces.deep_view() == path_pieces(virtual_path@, windows),
            safe_parts(pieces.deep_view(), i as int, windows) == Some(parts),
            rel@ == join_parts(parts),
            has_parts == (parts.len() > 0),
        decreases pieces@.len() - i,
    {
        proof {
            lemma_deep_view_index(pieces, i as int);
        }
        let p = pieces[i].as_slice();
        if chars_eq_str(p, "..") || (windows && is_drive_form(p)) {
            proof {
                lemma_safe_parts_none_stays(pieces.deep_view(), i + 1, pieces@.len() as int, windows);
            }
            return Err(FsError::Traversal);
        }
        if p.len() != 0 && !chars_eq_str(p, ".") {
            if has_parts {
                rel.push('/');
            }
            push_chars(&mut rel, p);
            proof {
                let np = parts.push(p@);
                if parts.len() > 0 {
                    assert(np.drop_last() =~= parts);
                    assert(rel@ =~= join_parts(np));
                } else {
                    assert(rel@ =~= join_parts(np));
                }
                parts = np;
            }
            has_parts = true;
        }
        i = i + 1;
    }
    let root = chars_of(cfg.root.as_str());
    let mut out: Vec<char> = Vec::new();
    push_chars(&mut out, root.as_slice());
    if root.len() > 0 && !(root[root.len() - 1] == '/' || (windows && root[root.len() - 1] == '\\')) {
        out.push('/');
    }
    push_chars(&mut out, rel.as_slice());
    proof {
        assert(out@ =~= path_join(cfg.root@, join_parts(parts), windows));
    }
    Ok(string_of(out.as_slice()))
}

/// Resolve a user-supplied virtual path against the configured share root
/// by this platform's path rules (see [`resolve_for`]).
pub fn resolve(cfg: &Config, virtual_path: &str) -> (r: Result<String, FsError>)
    ensures
        resolves_as(r, cfg.root@, virtual_path@, false) || resolves_as(
            r,
            cfg.root@,
            virtual_path@,
            true,
        ),
{
    resolve_for(cfg, virtual_path, backslash_separates())
}

proof fn lemma_safe_parts_none_stays(pieces: Seq<Seq<char>>, k: int, n: int, windows: bool)
    requires
        0 <= k <= n,
        safe_parts(pieces, k, windows) is None,
    ensures
        safe_parts(pieces, n, windows) is None,
    decreases n - k,
{
    if k < n {
        lemma_safe_parts_none_stays(pieces, k + 1, n, windows);
    }
}

/// A component that may stand in a resolved path: not empty, not `.` or
/// `..`, free of the platform's separators, and on Windows no drive prefix.
pub open spec fn normal_component(p: Seq<char>, windows: bool) -> bool {
    &&& p.len() > 0
    &&& p != "."@
    &&& p != ".."@
    &&& !p.contains('/')
    &&& windows ==> !p.contains('\\') && !drive_form(p)
}

proof fn lemma_split_pieces_lack(s: Seq<char>, sep: char, x: char, i: int)
    requires
        0 <= i <= s.len(),
        x == sep || !s.contains(x),
    ensures
        forall|k: int| 0 <= k < split_prefix(s, sep, i).0.len() ==> !(#[trigger] split_prefix(s, sep, i).0[k]).contains(x),
        !split_prefix(s, sep, i).1.contains(x),
    decreases i,
{
    if i > 0 {
        lemma_split_pieces_lack(s, sep, x, i - 1);
        let st = split_prefix(s, sep, i - 1);
        let c = s[i - 1];
        if c != sep {
            assert(c != x);
            assert forall|y: char| st.1.push(c).contains(y) implies st.1.contains(y) || y == c by {
                let j = choose|j: int| 0 <= j < st.1.push(c).len() && st.1.push(c)[j] == y;
                if j < st.1.len() {
                    assert(st.1[j] == y);
                }
            }
        }
    }
}

proof fn lemma_pieces_lack(s: Seq<char>, x: char)
    requires
        x == '/' || !s.contains(x),
    ensures
        forall|k: int| 0 <= k < split_on(s, '/').len() ==> !(#[trigger] split_on(s, '/')[k]).contains(x),
{
    lemma_split_pieces_lack(s, '/', x, s.len() as int);
    let st = split_prefix(s, '/', s.len() as int);
    assert forall|k: int| 0 <= k < split_on(s, '/').len() implies !(#[trigger] split_on(s, '/')[k]).contains(x) by {
        if k < st.0.len() {
            assert(split_on(s, '/')[k] == st.0[k]);
        } else {
            assert(split_on(s, '/')[k] == st.1);
        }
    }
}

proof fn lemma_safe_parts_normal(pieces: Seq<Seq<char>>, i: int, windows: bool)
    requires
        0 <= i <= pieces.len(),
        forall|k: int| 0 <= k < pieces.len() ==> !(#[trigger] pieces[k]).contains('/'),
        windows ==> forall|k: int| 0 <= k < pieces.len() ==> !(#[trigger] pieces[k]).contains('\\'),
    ensures
        safe_parts(pieces, i, windows) matches Some(acc) ==> forall|k: int|
            0 <= k < acc.len() ==> normal_component(#[trigger] acc[k], windows),
    decreases i,
{
    if i > 0 {
        lemma_safe_parts_normal(pieces, i - 1, windows);
    }
}

proof fn lemma_refused_piece_rejects(pieces: Seq<Seq<char>>, j: int, i: int, windows: bool)
    requires
        0 <= j < i <= pieces.len(),
        refused_piece(pieces[j], windows),
    ensures
        safe_parts(pieces, i, windows) is None,
    decreases i,
{
    if j < i - 1 {
        lemma_refused_piece_rejects(pieces, j, i - 1, windows);
    }
}

/// A resolved path is the share root followed by normal components only:
/// no `..`, `.`, empty, separator-holding or (on Windows) drive-prefixed
/// component can walk out of it.
pub proof fn law_resolved_path_stays_in_root(root: Seq<char>, virtual_path: Seq<char>, windows: bool)
    ensures
        resolved_path(root, virtual_path, windows) matches Some(p) ==> exists|parts: Seq<Seq<char>>|
            p == path_join(root, join_parts(parts), windows) && forall|k: int|
                0 <= k < parts.len() ==> normal_component(#[trigger] parts[k], windows),
{
    let raw = without_leading_slashes(virtual_path);
    let u = unify_seps(raw, windows);
    let pieces = path_pieces(virtual_path, windows);
    lemma_pieces_lack(u, '/');
    if windows {
        assert(!u.contains('\\')) by {
            if u.contains('\\') {
                let j = choose|j: int| 0 <= j < u.len() && u[j] == '\\';
                assert(u[j] == (if is_sep(raw[j], windows) { '/' } else { raw[j] }));
            }
        }
        lemma_pieces_lack(u, '\\');
    }
    lemma_safe_parts_normal(pieces, pieces.len() as int, windows);
    if let Some(parts) = safe_parts(pieces, pieces.len() as int, windows) {
        if !unc_form(raw, windows) {
            assert(resolved_path(root, virtual_path, windows) == Some(
                path_join(root, join_parts(parts), windows),
            ));
        }
    }
}

/// A virtual path with a `..` component anywhere is rejected, and on
/// Windows so is one with a drive prefix in any component.
pub proof fn law_dotdot_is_rejected(root: Seq<char>, virtual_path: Seq<char>, windows: bool, j: int)
    requires
        0 <= j < path_pieces(virtual_path, windows).len(),
        refused_piece(path_pieces(virtual_path, windows)[j], windows),
    ensures
        resolved_path(root, virtual_path, windows) is None,
{
    let pieces = path_pieces(virtual_path, windows);
    lemma_refused_piece_rejects(pieces, j, pieces.len() as int, windows);
}

/// On Windows a path that starts (after its leading `/`) with two
/// separators, a UNC, device or verbatim prefix, is rejected.
pub proof fn law_windows_prefix_is_rejected(root: Seq<char>, virtual_path: Seq<char>)
    requires
        unc_form(without_leading_slashes(virtual_path), true),
    ensures
        resolved_path(root, virtual_path, true) is None,
{
}

/// The resolved path always starts with the share root.
pub proof fn law_resolved_path_under_root(root: Seq<char>, virtual_path: Seq<char>, windows: bool)
    ensures
        resolved_path(root, virtual_path, windows) matches Some(p) ==> p.len() >= root.len()
            && p.take(root.len() as int) == root,
{
    if let Some(p) = resolved_path(root, virtual_path, windows) {
        let pieces = path_pieces(virtual_path, windows);
        let parts = safe_parts(pieces, pieces.len() as int, windows)->0;
        let rel = join_parts(parts);
        if root.len() == 0 || is_sep(root.last(), windows) {
            assert((root + rel).take(root.len() as int) =~= root);
        } else {
            assert((root + seq!['/'] + rel).take(root.len() as int) =~= root);
        }
    }
}

// ---------------------------------------------------- confinement on disk

/// Whether `path` is `root` or lies below it, compared component-wise
/// (both as the file system spells them once links are followed).
pub open spec fn path_within(root: Seq<char>, path: Seq<char>, windows: bool) -> bool {
    has_prefix(path, root) && (path.len() == root.len() || (root.len() > 0 && is_sep(
        root.last(),
        windows,
    )) || is_sep(path[root.len() as int], windows))
}

/// Whether `path` lies inside `root` by the path rules of Windows
/// (`windows`) or of other systems (see [`path_within`]).
pub fn within_root_for(root: &str, path: &str, windows: bool) -> (r: bool)
    ensures
        r == path_within(root@, path@, windows),
{
    let rt = chars_of(root);
    let p = chars_of(path);
    if !starts_with_chars(p.as_slice(), rt.as_slice()) {
        return false;
    }
    let n = rt.len();
    p.len() == n || (n > 0 && (rt[n - 1] == '/' || (windows && rt[n - 1] == '\\'))) || p[n] == '/'
        || (windows && p[n] == '\\')
}

/// Whether `path` lies inside `root` by this platform's path rules. A path
/// inside by the rules of other systems is inside on every platform; one
/// that is not inside by the Windows rules is inside on none.
pub fn within_root(root: &str, path: &str) -> (r: bool)
    ensures
        path_within(root@, path@, false) ==> r,
        r ==> path_within(root@, path@, true),
{
    within_root_for(root, path, backslash_separates())
}

fn starts_with_chars(s: &[char], p: &[char]) -> (r: bool)
    ensures
        r == has_prefix(s@, p@),
{
    if p.len() > s.len() {
        return false;
    }
    let head = crate::text::slice_to_vec(s, 0, p.len());
    proof {
        assert(head@ =~= s@.take(p@.len() as int));
    }
    chars_eq(head.as_slice(), p)
}

/// A canonical target (links followed) outside the canonical share root
/// is refused as traversal.
pub fn confine(canonical_root: &str, canonical_target: &str) -> (r: Result<(), FsError>)
    ensures
        path_within(canonical_root@, canonical_target@, false) ==> r is Ok,
        !path_within(canonical_root@, canonical_target@, true) ==> r == Err::<(), FsError>(FsError::Traversal),
        r matches Err(e) ==> e == FsError::Traversal,
{
    if within_root(canonical_root, canonical_target) {
        Ok(())
    } else {
        Err(FsError::Traversal)
    }
}

// ----------------------------------------------------------------- listing

/// One directory entry as listed to clients.
#[derive(Clone, Debug)]
pub struct Entry {
    pub name: String,
    pub is_dir: bool,
    pub size: u64,
    /// Modification time, seconds since UNIX epoch.
    pub mtime: i64,
}

/// Whether a directory entry of this name is listed: the recycle bin
/// `.Trash` never is, and dot-names only when hidden files are shown.
pub open spec fn is_listed_name(name: Seq<char>, show_hidden: bool) -> bool {
    name != ".Trash"@ && (show_hidden || !(name.len() > 0 && name[0] == '.'))
}

pub fn is_listed(name: &str, show_hidden: bool) -> (r: bool)
    ensures
        r == is_listed_name(name@, show_hidden),
{
    let n = chars_of(name);
    if chars_eq_str(n.as_slice(), ".Trash") {
        return false;
    }
    show_hidden || !(n.len() > 0 && n[0] == '.')
}

impl Entry {
    /// The entry for a file system object; directories list a size of 0.
    pub fn new(name: String, is_dir: bool, len: u64, mtime: i64) -> (e: Entry)
        ensures
            e.name == name,
            e.is_dir == is_dir,
            e.size == (if is_dir {
                0
            } else {
                len
            }),
            e.mtime == mtime,
    {
        Entry {
            is_dir,
            size: if is_dir {
                0
            } else {
                len
            },
            mtime,
            name,
        }
    }
}

// ----------------------------------------------------------------- sorting

/// What `str::to_lowercase` gives (full Unicode case mapping).
pub uninterp spec fn unicode_lowercase(s: Seq<char>) -> Seq<char>;

/// `str::to_lowercase`, which applies the Unicode lowercase mapping; the
/// result is named, not stated.
#[verifier::external_body]
fn to_lowercase(s: &str) -> (r: Vec<char>)
    ensures
        r@ == unicode_lowercase(s@),
{
    s.to_lowercase().chars().collect()
}

/// Lexicographic order of character sequences by code point, which is the
/// order of `String`'s `Ord` (UTF-8 preserves code point order).
pub open spec fn lex_le(a: Seq<char>, b: Seq<char>) -> bool
    decreases a.len(),
{
    if a.len() == 0 {
        true
    } else if b.len() == 0 {
        false
    } else if a[0] != b[0] {
        a[0] < b[0]
    } else {
        lex_le(a.drop_first(), b.drop_first())
    }
}

proof fn lemma_lex_total(a: Seq<char>, b: Seq<char>)
    ensures
        lex_le(a, b) || lex_le(b, a),
    decreases a.len(),
{
    if a.len() > 0 && b.len() > 0 && a[0] == b[0] {
        lemma_lex_total(a.drop_first(), b.drop_first());
    }
}

proof fn lemma_lex_trans(a: Seq<char>, b: Seq<char>, c: Seq<char>)
    requires
        lex_le(a, b),
        lex_le(b, c),
    ensures
        lex_le(a, c),
    decreases a.len(),
{
    if a.len() > 0 && b.len() > 0 && c.len() > 0 && a[0] == b[0] && b[0] == c[0] {
        lemma_lex_trans(a.drop_first(), b.drop_first(), c.drop_first());
    }
}

/// The listing order: directories first, then by lowercased name.
pub open spec fn listing_le(a: Entry, b: Entry) -> bool {
    if a.is_dir && !b.is_dir {
        true
    } else if !a.is_dir && b.is_dir {
        false
    } else {
        lex_le(unicode_lowercase(a.name@), unicode_lowercase(b.name@))
    }
}

/// Entries the listing order does not tell apart.
pub open spec fn listing_eq(a: Entry, b: Entry) -> bool {
    listing_le(a, b) && listing_le(b, a)
}

proof fn lemma_listing_total(a: Entry, b: Entry)
    ensures
        listing_le(a, b) || listing_le(b, a),
{
    lemma_lex_total(unicode_lowercase(a.name@), unicode_lowercase(b.name@));
}

proof fn lemma_listing_trans(a: Entry, b: Entry, c: Entry)
    requires
        listing_le(a, b),
        listing_le(b, c),
    ensures
        listing_le(a, c),
{
    if a.is_dir == b.is_dir && b.is_dir == c.is_dir {
        lemma_lex_trans(
            unicode_lowercase(a.name@),
            unicode_lowercase(b.name@),
            unicode_lowercase(c.name@),
        );
    }
}

/// `out` is `input` stably sorted in listing order, `p` telling where each
/// entry came from.
pub open spec fn stable_sorted_by(input: Seq<Entry>, out: Seq<Entry>, p: Seq<int>) -> bool {
    &&& out.len() == input.len()
    &&& p.len() == input.len()
    &&& forall|k: int| 0 <= k < p.len() ==> 0 <= #[trigger] p[k] < input.len()
    &&& forall|k: int, l: int| 0 <= k < l < p.len() ==> #[trigger] p[k] != #[trigger] p[l]
    &&& forall|k: int| 0 <= k < out.len() ==> #[trigger] out[k] == input[p[k]]
    &&& forall|k: int, l: int|
        0 <= k < l < out.len() ==> listing_le(#[trigger] out[k], #[trigger] out[l])
    &&& forall|k: int, l: int|
        0 <= k < l < out.len() && listing_eq(#[trigger] out[k], #[trigger] out[l]) ==> p[k] < p[l]
}

fn lex_le_exec(a: &[char], b: &[char]) -> (r: bool)
    ensures
        r == lex_le(a@, b@),
{
    let mut i: usize = 0;
    proof {
        assert(a@.skip(0) =~= a@);
        assert(b@.skip(0) =~= b@);
    }
    while i < a.len() && i < b.len() && a[i] == b[i]
        invariant
            0 <= i <= a@.len(),
            i <= b@.len(),
            lex_le(a@, b@) == lex_le(a@.skip(i as int), b@.skip(i as int)),
        decreases a@.len() - i,
    {
        proof {
            assert(a@.skip(i as int).drop_first() =~= a@.skip(i + 1));
            assert(b@.skip(i as int).drop_first() =~= b@.skip(i + 1));
        }
        i = i + 1;
    }
    if i == a.len() {
        true
    } else if i == b.len() {
        false
    } else {
        a[i] < b[i]
    }
}

fn listing_le_exec(a: &Entry, la: &Vec<char>, b: &Entry, lb: &Vec<char>) -> (r: bool)
    requires
        la@ == unicode_lowercase(a.name@),
        lb@ == unicode_lowercase(b.name@),
    ensures
        r == listing_le(*a, *b),
{
    if a.is_dir && !b.is_dir {
        true
    } else if !a.is_dir && b.is_dir {
        false
    } else {
        lex_le_exec(la.as_slice(), lb.as_slice())
    }
}

/// `s` with the element at `i` moved to `j <= i`.
pub open spec fn moved<T>(s: Seq<T>, i: int, j: int) -> Seq<T> {
    s.remove(i).insert(j, s[i])
}

proof fn lemma_moved<T>(s: Seq<T>, i: int, j: int)
    requires
        0 <= j <= i < s.len(),
    ensures
        moved(s, i, j).len() == s.len(),
        forall|k: int| 0 <= k < j ==> #[trigger] moved(s, i, j)[k] == s[k],
        moved(s, i, j)[j] == s[i],
        forall|k: int| j < k <= i ==> #[trigger] moved(s, i, j)[k] == s[k - 1],
        forall|k: int| i < k < s.len() ==> #[trigger] moved(s, i, j)[k] == s[k],
{
    let r = s.remove(i);
    s.remove_ensures(i);
    r.insert_ensures(j, s[i]);
    let m = r.insert(j, s[i]);
    assert forall|k: int| 0 <= k < j implies #[trigger] m[k] == s[k] by {
        assert(m[k] == r[k]);
        assert(r[k] == s[k]);
    }
    assert forall|k: int| j < k <= i implies #[trigger] m[k] == s[k - 1] by {
        assert(m[(k - 1) + 1] == r[k - 1]);
        assert(r[k - 1] == s[k - 1]);
    }
    assert forall|k: int| i < k < s.len() implies #[trigger] m[k] == s[k] by {
        assert(m[(k - 1) + 1] == r[k - 1]);
        assert(r[k - 1] == s[(k - 1) + 1]);
    }
}

/// Sort entries stably: directories first, then by lowercased name.
pub fn sort_entries(entries: &mut Vec<Entry>)
    ensures
        exists|p: Seq<int>| stable_sorted_by(old(entries)@, final(entries)@, p),
{
    let ghost input = entries@;
    let n = entries.len();
    let mut lows: Vec<Vec<char>> = Vec::new();
    let mut k: usize = 0;
    while k < n
        invariant
            0 <= k <= n,
            n == entries@.len(),
            entries@ == input,
            lows@.len() == k,
            forall|t: int| 0 <= t < k ==> (#[trigger] lows@[t])@ == unicode_lowercase(entries@[t].name@),
        decreases n - k,
    {
        lows.push(to_lowercase(entries[k].name.as_str()));
        k = k + 1;
    }
    let ghost mut p: Seq<int> = Seq::new(n as nat, |t: int| t);
    let mut i: usize = 0;
    while i < n
        invariant
            0 <= i <= n,
            n == entries@.len(),
            n == lows@.len(),
            n == input.len(),
            p.len() == n,
            forall|t: int| 0 <= t < n ==> (#[trigger] lows@[t])@ == unicode_lowercase(entries@[t].name@),
            forall|t: int| 0 <= t < n ==> 0 <= #[trigger] p[t] < n,
            forall|t: int, u: int| 0 <= t < u < n ==> #[trigger] p[t] != #[trigger] p[u],
            forall|t: int| 0 <= t < n ==> #[trigger] entries@[t] == input[p[t]],
            forall|t: int| i <= t < n ==> #[trigger] p[t] == t,
            forall|t: int| 0 <= t < i ==> #[trigger] p[t] < i,
            forall|t: int, u: int|
                0 <= t < u < i ==> listing_le(#[trigger] entries@[t], #[trigger] entries@[u]),
            forall|t: int, u: int|
                0 <= t < u < i && listing_eq(#[trigger] entries@[t], #[trigger] entries@[u]) ==> p[t]
                    < p[u],
        decreases n - i,
    {
        let mut j: usize = i;
        while j > 0 && !listing_le_exec(&entries[j - 1], &lows[j - 1], &entries[i], &lows[i])
            invariant
                0 <= j <= i < n,
                n == entries@.len(),
                n == lows@.len(),
                forall|t: int| 0 <= t < n ==> (#[trigger] lows@[t])@ == unicode_lowercase(entries@[t].name@),
                forall|t: int| j <= t < i ==> !listing_le(#[trigger] entries@[t], entries@[i as int]),
            decreases j,
        {
            j = j - 1;
        }
        let ghost old_e = entries@;
        let ghost old_p = p;
        let x = entries.remove(i);
        entries.insert(j, x);
        let lx = lows.remove(i);
        lows.insert(j, lx);
        proof {
            let ii = i as int;
            let jj = j as int;
            lemma_moved(old_e, ii, jj);
            lemma_moved(old_p, ii, jj);
            assert(entries@ == moved(old_e, ii, jj));
            p = moved(old_p, ii, jj);
            let e = entries@;
            let xe = old_e[ii];
            // Everything before the new position sorts before it.
            assert forall|t: int| 0 <= t < jj implies listing_le(#[trigger] e[t], xe) by {
                if t < jj - 1 {
                    lemma_listing_trans(old_e[t], old_e[jj - 1], xe);
                }
            }
            // Everything the element skipped sorts strictly after it.
            assert forall|t: int| jj < t <= ii implies listing_le(xe, #[trigger] e[t]) && !listing_le(
                e[t],
                xe,
            ) by {
                lemma_listing_total(old_e[t - 1], xe);
            }
            assert forall|t: int, u: int| 0 <= t < u < ii + 1 implies listing_le(
                #[trigger] e[t],
                #[trigger] e[u],
            ) by {
                if u == jj {
                } else if t == jj {
                    if u <= ii {
                    }
                } else if t < jj && u > jj {
                    lemma_listing_trans(e[t], xe, e[u]);
                }
            }
            assert forall|t: int, u: int|
                0 <= t < u < ii + 1 && listing_eq(#[trigger] e[t], #[trigger] e[u]) implies p[t]
                < p[u] by {
                if u == jj {
                    assert(old_p[t] < ii);
                } else if t == jj {
                    assert(!listing_le(e[u], xe));
                } else if t < jj && u > jj {
                    lemma_listing_trans(e[u], e[t], xe);
                }
            }
            assert forall|t: int, u: int| 0 <= t < u < n implies #[trigger] p[t] != #[trigger] p[u] by {
                let tt = if t < jj { t } else if t == jj { ii } else if t <= ii { t - 1 } else { t };
                let uu = if u < jj { u } else if u == jj { ii } else if u <= ii { u - 1 } else { u };
                assert(tt != uu);
                if tt < uu {
                    assert(old_p[tt] != old_p[uu]);
                } else {
                    assert(old_p[uu] != old_p[tt]);
                }
            }
        }
        i = i + 1;
    }
    proof {
        assert(stable_sorted_by(input, entries@, p));
    }
}

// ----------------------------------------------------------------- listing

/// One directory entry as read from disk: its name, whether it is a
/// directory, its length and its modification time.
#[derive(Clone, Debug)]
pub struct DirItem {
    pub name: String,
    pub is_dir: bool,
    pub len: u64,
    pub mtime: i64,
}

/// The entry a read item is listed as.
pub open spec fn entry_of(d: DirItem) -> Entry {
    Entry {
        name: d.name,
        is_dir: d.is_dir,
        size: if d.is_dir {
            0
        } else {
            d.len
        },
        mtime: d.mtime,
    }
}

/// The entries of the listed items, in the order they were read.
pub open spec fn listed_items(items: Seq<DirItem>, show_hidden: bool) -> Seq<Entry>
    decreases items.len(),
{
    if items.len() == 0 {
        Seq::empty()
    } else {
        let rest = listed_items(items.drop_last(), show_hidden);
        let d = items.last();
        if is_listed_name(d.name@, show_hidden) {
            rest.push(entry_of(d))
        } else {
            rest
        }
    }
}

/// Whether `out` lists exactly the read items that are shown, each once,
/// with `q[k]` the item that entry `k` comes from: the recycle bin `.Trash`
/// is never shown and dot-names only with `show_hidden`; every other item
/// is listed with its name, kind and modification time, and its length as
/// its size (0 for a directory), whatever that length is.
pub open spec fn lists_exactly(items: Seq<DirItem>, show_hidden: bool, out: Seq<Entry>, q: Seq<int>) -> bool {
    &&& q.len() == out.len()
    &&& forall|k: int| 0 <= k < out.len() ==> {
        let d = items[#[trigger] q[k]];
        &&& 0 <= q[k] < items.len()
        &&& d.name@ != ".Trash"@ && (show_hidden || !(d.name@.len() > 0 && d.name@[0] == '.'))
        &&& out[k].name == d.name
        &&& out[k].is_dir == d.is_dir
        &&& out[k].size == (if d.is_dir {
            0
        } else {
            d.len
        })
        &&& out[k].mtime == d.mtime
    }
    &&& forall|k: int, l: int| 0 <= k < l < out.len() ==> #[trigger] q[k] != #[trigger] q[l]
    &&& forall|i: int|
        0 <= i < items.len() && items[i].name@ != ".Trash"@ && (show_hidden || !(items[i].name@.len()
            > 0 && items[i].name@[0] == '.')) ==> exists|k: int| 0 <= k < out.len() && #[trigger] q[k] == i
}

/// Indices of the shown items among the first `k`, in order.
pub open spec fn listed_index(items: Seq<DirItem>, show_hidden: bool, k: int) -> Seq<int>
    decreases k,
{
    if k <= 0 {
        Seq::empty()
    } else {
        let rest = listed_index(items, show_hidden, k - 1);
        if is_listed_name(items[k - 1].name@, show_hidden) {
            rest.push(k - 1)
        } else {
            rest
        }
    }
}

proof fn lemma_listed_index(items: Seq<DirItem>, show_hidden: bool, k: int)
    requires
        0 <= k <= items.len(),
    ensures
        ({
            let idx = listed_index(items, show_hidden, k);
            let li = listed_items(items.take(k), show_hidden);
            &&& idx.len() == li.len()
            &&& forall|j: int| 0 <= j < idx.len() ==> 0 <= #[trigger] idx[j] < k && is_listed_name(
                items[idx[j]].name@,
                show_hidden,
            ) && li[j] == entry_of(items[idx[j]])
            &&& forall|j: int, l: int| 0 <= j < l < idx.len() ==> #[trigger] idx[j] < #[trigger] idx[l]
            &&& forall|i: int| 0 <= i < k && is_listed_name(items[i].name@, show_hidden) ==> exists|j: int|
                0 <= j < idx.len() && #[trigger] idx[j] == i
        }),
    decreases k,
{
    if k > 0 {
        lemma_listed_index(items, show_hidden, k - 1);
        assert(items.take(k).drop_last() =~= items.take(k - 1));
        assert(items.take(k).last() == items[k - 1]);
        let idx0 = listed_index(items, show_hidden, k - 1);
        let idx = listed_index(items, show_hidden, k);
        let li0 = listed_items(items.take(k - 1), show_hidden);
        let li = listed_items(items.take(k), show_hidden);
        if is_listed_name(items[k - 1].name@, show_hidden) {
            assert forall|j: int| 0 <= j < idx.len() implies 0 <= #[trigger] idx[j] < k && is_listed_name(
                items[idx[j]].name@,
                show_hidden,
            ) && li[j] == entry_of(items[idx[j]]) by {
                if j < idx0.len() {
                    assert(idx[j] == idx0[j]);
                    assert(li[j] == li0[j]);
                }
            }
            assert forall|i: int| 0 <= i < k && is_listed_name(items[i].name@, show_hidden) implies exists|j: int|
                0 <= j < idx.len() && #[trigger] idx[j] == i by {
                if i == k - 1 {
                    assert(idx[idx0.len() as int] == i);
                } else {
                    let j = choose|j: int| 0 <= j < idx0.len() && #[trigger] idx0[j] == i;
                    assert(idx[j] == i);
                }
            }
        } else {
            assert forall|i: int| 0 <= i < k && is_listed_name(items[i].name@, show_hidden) implies exists|j: int|
                0 <= j < idx.len() && #[trigger] idx[j] == i by {
                let j = choose|j: int| 0 <= j < idx0.len() && #[trigger] idx0[j] == i;
                assert(idx[j] == i);
            }
        }
    }
}

proof fn lemma_injection_is_onto(p: Seq<int>, n: int, i: int)
    requires
        p.len() == n,
        forall|k: int| 0 <= k < n ==> 0 <= #[trigger] p[k] < n,
        forall|k: int, l: int| 0 <= k < l < n ==> #[trigger] p[k] != #[trigger] p[l],
        0 <= i < n,
    ensures
        exists|k: int| 0 <= k < n && p[k] == i,
{
    if !(exists|k: int| 0 <= k < n && p[k] == i) {
        assert(p.no_duplicates()) by {
            assert forall|a: int, b: int| 0 <= a < p.len() && 0 <= b < p.len() && a != b implies p[a]
                != p[b] by {
                if a < b {
                    assert(p[a] != p[b]);
                } else {
                    assert(p[b] != p[a]);
                }
            }
        }
        p.unique_seq_to_set();
        vstd::set_lib::lemma_int_range(0, n);
        let r = vstd::set_lib::set_int_range(0, n).remove(i);
        assert forall|x: int| p.to_set().contains(x) implies r.contains(x) by {
            let k = choose|k: int| 0 <= k < p.len() && p[k] == x;
            assert(0 <= p[k] < n);
        }
        vstd::set_lib::lemma_len_subset(p.to_set(), r);
        assert(vstd::set_lib::set_int_range(0, n).contains(i));
    }
}

/// A listing shows every read item that is to be shown, once each, and
/// nothing else: a zero-length file, like any other, is listed with its
/// name, kind, size and time (see [`lists_exactly`]).
pub proof fn law_listing_is_complete(items: Seq<DirItem>, show_hidden: bool, out: Seq<Entry>, p: Seq<int>)
    requires
        stable_sorted_by(listed_items(items, show_hidden), out, p),
    ensures
        exists|q: Seq<int>| lists_exactly(items, show_hidden, out, q),
{
    let n = items.len() as int;
    lemma_listed_index(items, show_hidden, n);
    assert(items.take(n) =~= items);
    let idx = listed_index(items, show_hidden, n);
    let input = listed_items(items, show_hidden);
    let q = Seq::new(out.len(), |k: int| idx[p[k]]);
    assert forall|k: int| 0 <= k < out.len() implies {
        let d = items[#[trigger] q[k]];
        &&& 0 <= q[k] < items.len()
        &&& d.name@ != ".Trash"@ && (show_hidden || !(d.name@.len() > 0 && d.name@[0] == '.'))
        &&& out[k].name == d.name
        &&& out[k].is_dir == d.is_dir
        &&& out[k].size == (if d.is_dir {
            0
        } else {
            d.len
        })
        &&& out[k].mtime == d.mtime
    } by {
        assert(out[k] == input[p[k]]);
        assert(0 <= p[k] < idx.len());
        assert(input[p[k]] == entry_of(items[idx[p[k]]]));
    }
    assert forall|k: int, l: int| 0 <= k < l < out.len() implies #[trigger] q[k] != #[trigger] q[l] by {
        assert(p[k] != p[l]);
        if p[k] < p[l] {
            assert(idx[p[k]] < idx[p[l]]);
        } else {
            assert(idx[p[l]] < idx[p[k]]);
        }
    }
    assert forall|i: int|
        0 <= i < items.len() && items[i].name@ != ".Trash"@ && (show_hidden || !(items[i].name@.len() > 0
            && items[i].name@[0] == '.')) implies exists|k: int| 0 <= k < out.len() && #[trigger] q[k] == i by {
        assert(is_listed_name(items[i].name@, show_hidden));
        let j = choose|j: int| 0 <= j < idx.len() && #[trigger] idx[j] == i;
        lemma_injection_is_onto(p, input.len() as int, j);
        let k = choose|k: int| 0 <= k < input.len() && p[k] == j;
        assert(q[k] == i);
    }
    assert(lists_exactly(items, show_hidden, out, q));
}

/// The listing of a directory from the items read from it: the recycle
/// bin and (unless `show_hidden`) dot-names are left out, then the
/// entries are sorted stably, directories first, then by lowercased name.
pub fn listing(items: Vec<DirItem>, show_hidden: bool) -> (r: Vec<Entry>)
    ensures
        exists|p: Seq<int>| stable_sorted_by(listed_items(items@, show_hidden), r@, p),
        exists|q: Seq<int>| lists_exactly(items@, show_hidden, r@, q),
{
    let ghost all = items@;
    let n = items.len();
    let mut rest = items;
    let mut out: Vec<Entry> = Vec::new();
    let mut i: usize = 0;
    while rest.len() > 0
        invariant
            i + rest@.len() == all.len(),
            all.len() == n,
            rest@ == all.skip(i as int),
            out@ == listed_items(all.take(i as int), show_hidden),
        decreases rest@.len(),
    {
        let d = rest.remove(0);
        proof {
            assert(d == all[i as int]);
            assert(all.take(i + 1).drop_last() =~= all.take(i as int));
            assert(all.take(i + 1).last() == d);
            assert(rest@ =~= all.skip(i + 1));
        }
        if is_listed(d.name.as_str(), show_hidden) {
            let e = Entry::new(d.name, d.is_dir, d.len, d.mtime);
            out.push(e);
        }
        i = i + 1;
    }
    proof {
        assert(all.take(i as int) =~= all);
    }
    sort_entries(&mut out);
    proof {
        let p = choose|p: Seq<int>| stable_sorted_by(listed_items(all, show_hidden), out@, p);
        law_listing_is_complete(all, show_hidden, out@, p);
    }
    out
}

proof fn lemma_listed_items_listed(items: Seq<DirItem>, show_hidden: bool)
    ensures
        forall|k: int| 0 <= k < listed_items(items, show_hidden).len() ==> is_listed_name(
            (#[trigger] listed_items(items, show_hidden)[k]).name@,
            show_hidden,
        ) && (listed_items(items, show_hidden)[k].is_dir ==> listed_items(items, show_hidden)[k].size
            == 0),
    decreases items.len(),
{
    if items.len() > 0 {
        let rest = listed_items(items.drop_last(), show_hidden);
        lemma_listed_items_listed(items.drop_last(), show_hidden);
        let all = listed_items(items, show_hidden);
        assert forall|k: int| 0 <= k < all.len() implies is_listed_name((#[trigger] all[k]).name@, show_hidden)
            && (all[k].is_dir ==> all[k].size == 0) by {
            if k < rest.len() {
                assert(all[k] == rest[k]);
            }
        }
    }
}

/// A listing holds only listed names (never the recycle bin, dot-names only
/// when hidden files are shown), directories with size 0, and every
/// directory before every file.
pub proof fn law_listing_contents(items: Seq<DirItem>, show_hidden: bool, out: Seq<Entry>, p: Seq<int>)
    requires
        stable_sorted_by(listed_items(items, show_hidden), out, p),
    ensures
        forall|k: int| 0 <= k < out.len() ==> is_listed_name((#[trigger] out[k]).name@, show_hidden)
            && out[k].name@ != ".Trash"@ && (out[k].is_dir ==> out[k].size == 0),
        forall|k: int, l: int| 0 <= k < l < out.len() && (#[trigger] out[l]).is_dir ==> (#[trigger] out[k]).is_dir,
{
    let input = listed_items(items, show_hidden);
    lemma_listed_items_listed(items, show_hidden);
    assert forall|k: int| 0 <= k < out.len() implies is_listed_name((#[trigger] out[k]).name@, show_hidden)
        && out[k].name@ != ".Trash"@ && (out[k].is_dir ==> out[k].size == 0) by {
        assert(out[k] == input[p[k]]);
    }
    assert forall|k: int, l: int| 0 <= k < l < out.len() && (#[trigger] out[l]).is_dir implies (#[trigger] out[k]).is_dir by {
        if !out[k].is_dir {
            law_directories_first(input, out, p, l, k);
        }
    }
}

/// `a` comes no later than `b` in dictionary order by code point: `a` is a
/// prefix of `b`, or at the first place they differ `a` has the smaller
/// character.
pub open spec fn dictionary_before(a: Seq<char>, b: Seq<char>) -> bool {
    ||| (a.len() <= b.len() && b.take(a.len() as int) == a)
    ||| exists|i: int| 0 <= i < a.len() && i < b.len() && a.take(i) == b.take(i) && #[trigger] a[i] < b[i]
}

proof fn lemma_lex_is_dictionary(a: Seq<char>, b: Seq<char>)
    requires
        lex_le(a, b),
    ensures
        dictionary_before(a, b),
    decreases a.len(),
{
    if a.len() == 0 {
        assert(b.take(0) =~= a);
    } else if a[0] != b[0] {
        assert(a.take(0) =~= b.take(0));
        assert(a[0] < b[0]);
    } else {
        let a1 = a.drop_first();
        let b1 = b.drop_first();
        lemma_lex_is_dictionary(a1, b1);
        if a1.len() <= b1.len() && b1.take(a1.len() as int) == a1 {
            assert(b.take(a.len() as int) =~= seq![a[0]] + b1.take(a1.len() as int));
            assert(a =~= seq![a[0]] + a1);
        } else {
            let i = choose|i: int| 0 <= i < a1.len() && i < b1.len() && a1.take(i) == b1.take(i) && #[trigger] a1[i]
                < b1[i];
            assert(a.take(i + 1) =~= seq![a[0]] + a1.take(i));
            assert(b.take(i + 1) =~= seq![b[0]] + b1.take(i));
            assert(a[i + 1] == a1[i]);
            assert(b[i + 1] == b1[i]);
        }
    }
}

/// A listing puts every directory before every file, orders entries of a
/// kind by their lowercased names in dictionary order, and keeps entries
/// whose lowercased names are equal in the order they were read.
pub proof fn law_listing_order(input: Seq<Entry>, out: Seq<Entry>, p: Seq<int>, k: int, l: int)
    requires
        stable_sorted_by(input, out, p),
        0 <= k < l < out.len(),
    ensures
        out[l].is_dir ==> out[k].is_dir,
        out[k].is_dir == out[l].is_dir ==> dictionary_before(
            unicode_lowercase(out[k].name@),
            unicode_lowercase(out[l].name@),
        ),
        out[k].is_dir == out[l].is_dir && unicode_lowercase(out[k].name@) == unicode_lowercase(
            out[l].name@,
        ) ==> p[k] < p[l],
{
    assert(listing_le(out[k], out[l]));
    if out[k].is_dir == out[l].is_dir {
        lemma_lex_is_dictionary(unicode_lowercase(out[k].name@), unicode_lowercase(out[l].name@));
        if unicode_lowercase(out[k].name@) == unicode_lowercase(out[l].name@) {
            lemma_lex_total(unicode_lowercase(out[l].name@), unicode_lowercase(out[k].name@));
            assert(listing_eq(out[k], out[l]));
        }
    }
}

// ------------------------------------------------------------------- trash

/// Name of the recycle-bin directory under the share root.
pub const TRASH_DIR: &'static str = ".Trash";

/// The name a deleted entry gets in the recycle bin:
/// `.<stamp in hex>.<tag>.<name>`, where a nameless path is called
/// `unnamed`. The stamp (seconds) orders the entries; the tag, drawn anew
/// while the name is taken, keeps deletes within one second apart.
pub open spec fn trash_name(stamp: u64, tag: Seq<char>, basename: Option<Seq<char>>) -> Seq<char> {
    seq!['.'] + hex_string(stamp as nat) + seq!['.'] + tag + seq!['.'] + match basename {
        Some(b) => b,
        None => "unnamed"@,
    }
}

pub fn trash_entry_name(stamp: u64, tag: &str, basename: Option<&str>) -> (r: String)
    ensures
        r@ == trash_name(
            stamp,
            tag@,
            match basename {
                Some(b) => Some(b@),
                None => None,
            },
        ),
{
    let mut v: Vec<char> = Vec::new();
    v.push('.');
    push_radix(&mut v, stamp, 16);
    v.push('.');
    push_str(&mut v, tag);
    v.push('.');
    match basename {
        Some(b) => push_str(&mut v, b),
        None => push_str(&mut v, "unnamed"),
    }
    proof {
        assert(v@ =~= trash_name(
            stamp,
            tag@,
            match basename {
                Some(b) => Some(b@),
                None => None,
            },
        ));
    }
    string_of(v.as_slice())
}

/// Two deletes in the same second of entries with the same name land under
/// different recycle-bin names when their tags (of one length) differ.
pub proof fn law_trash_tags_keep_names_apart(
    stamp: u64,
    t1: Seq<char>,
    t2: Seq<char>,
    basename: Option<Seq<char>>,
)
    requires
        t1.len() == t2.len(),
        t1 != t2,
    ensures
        trash_name(stamp, t1, basename) != trash_name(stamp, t2, basename),
{
    let p = seq!['.'] + hex_string(stamp as nat) + seq!['.'];
    let n1 = trash_name(stamp, t1, basename);
    let n2 = trash_name(stamp, t2, basename);
    if n1 == n2 {
        assert(n1.subrange(p.len() as int, (p.len() + t1.len()) as int) =~= t1);
        assert(n2.subrange(p.len() as int, (p.len() + t2.len()) as int) =~= t2);
    }
}

/// The recycle bin is never listed; other dot-names are listed exactly when
/// hidden files are shown; every other name is listed.
pub proof fn law_listing_visibility(name: Seq<char>, show_hidden: bool)
    ensures
        !is_listed_name(".Trash"@, show_hidden),
        name != ".Trash"@ && name.len() > 0 && name[0] == '.' ==> (is_listed_name(name, show_hidden)
            == show_hidden),
        name != ".Trash"@ && !(name.len() > 0 && name[0] == '.') ==> is_listed_name(name, show_hidden),
{
}

/// In a sorted listing every directory comes before every file.
pub proof fn law_directories_first(input: Seq<Entry>, out: Seq<Entry>, p: Seq<int>, k: int, l: int)
    requires
        stable_sorted_by(input, out, p),
        0 <= k < out.len(),
        0 <= l < out.len(),
        out[k].is_dir,
        !out[l].is_dir,
    ensures
        k < l,
{
    if l < k {
        assert(listing_le(out[l], out[k]));
    }
}

} // verus!

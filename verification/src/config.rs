//! `webd.conf` compatible configuration parser.
//!
//! Recognised directives (case-insensitive):
//!   Webd.Root     <path>
//!   Webd.Listen   <addr-or-port>          (repeatable)
//!   Webd.User     <perm_tag> <user> <pass> (repeatable, max 3 users)
//!   Webd.Guest    <perm_tag>
//!   Webd.Hide                              (no value, Windows tray-only)
//!   Webd.Browser  <path>
//!
//! Lines starting with `#` are comments. Paths may be double-quoted.
use vstd::prelude::*;

use crate::text::{
    ascii_lower, ascii_lowercase, chars_eq_str, chars_of, lemma_deep_view_index, lines_of,
    normalize_listen, normalized_listen, push_decimal, push_str, push_string, split_lines,
    string_of, tokenize, tokens_of, trim, trim_chars, dec_string,
};

verus! {

/// Permission flags granted by a webd permission tag.
#[derive(Clone, Copy, Debug, PartialEq, Eq, Structural)]
pub struct Perms {
    /// `r`: download files.
    pub access: bool,
    /// `l`: list directories.
    pub list: bool,
    /// `u`: upload files and create directories.
    pub upload: bool,
    /// `m`: delete, move and rename.
    pub modify: bool,
    /// `S`: show hidden (dot) files.
    pub show_hidden: bool,
    /// `T`: use the media player page.
    pub play_media: bool,
    /// `D`: force downloads instead of inline display.
    pub force_download: bool,
}

/// No permission at all.
pub open spec fn no_perms() -> Perms {
    Perms {
        access: false,
        list: false,
        upload: false,
        modify: false,
        show_hidden: false,
        play_media: false,
        force_download: false,
    }
}

/// The permissions a tag grants: `0` grants nothing, otherwise each known
/// letter grants its permission and other characters are ignored.
pub open spec fn perms_of_tag(tag: Seq<char>) -> Perms {
    if tag == seq!['0'] {
        no_perms()
    } else {
        Perms {
            access: tag.contains('r'),
            list: tag.contains('l'),
            upload: tag.contains('u'),
            modify: tag.contains('m'),
            show_hidden: tag.contains('S'),
            play_media: tag.contains('T'),
            force_download: tag.contains('D'),
        }
    }
}

pub open spec fn flag_char(b: bool, c: char) -> Seq<char> {
    if b {
        seq![c]
    } else {
        Seq::empty()
    }
}

/// The canonical tag of a permission set: granted letters in the order
/// `r l u m S T D`, or `0` when nothing is granted.
pub open spec fn tag_of_perms(p: Perms) -> Seq<char> {
    let s = perm_letters(p);
    if s.len() == 0 {
        seq!['0']
    } else {
        s
    }
}

/// The traditional webd guest permissions: list and download.
pub open spec fn guest_default_perms() -> Perms {
    Perms { access: true, list: true, ..no_perms() }
}

impl Default for Perms {
    fn default() -> (p: Perms)
        ensures
            p == no_perms(),
    {
        Perms {
            access: false,
            list: false,
            upload: false,
            modify: false,
            show_hidden: false,
            play_media: false,
            force_download: false,
        }
    }
}

fn push_flag(out: &mut Vec<char>, b: bool, c: char)
    ensures
        final(out)@ == old(out)@ + flag_char(b, c),
{
    if b {
        out.push(c);
    }
    proof {
        assert(out@ =~= old(out)@ + flag_char(b, c));
    }
}

impl Perms {
    /// Parse a permission tag such as `rlumS` (see [`perms_of_tag`]).
    pub fn from_tag(tag: &str) -> (p: Perms)
        ensures
            p == perms_of_tag(tag@),
    {
        let t = chars_of(tag);
        Perms::from_tag_chars(t.as_slice())
    }

    /// [`Perms::from_tag`] on a character sequence.
    pub fn from_tag_chars(tag: &[char]) -> (p: Perms)
        ensures
            p == perms_of_tag(tag@),
    {
        let mut p = Perms::default();
        if chars_eq_str(tag, "0") {
            proof {
                reveal_strlit("0");
                assert(tag@ =~= seq!['0']);
            }
            return p;
        }
        proof {
            reveal_strlit("0");
            assert("0"@ =~= seq!['0']);
        }
        let mut i: usize = 0;
        while i < tag.len()
            invariant
                0 <= i <= tag@.len(),
                tag@ != seq!['0'],
                p.access == tag@.take(i as int).contains('r'),
                p.list == tag@.take(i as int).contains('l'),
                p.upload == tag@.take(i as int).contains('u'),
                p.modify == tag@.take(i as int).contains('m'),
                p.show_hidden == tag@.take(i as int).contains('S'),
                p.play_media == tag@.take(i as int).contains('T'),
                p.force_download == tag@.take(i as int).contains('D'),
            decreases tag@.len() - i,
        {
            let c = tag[i];
            if c == 'r' {
                p.access = true;
            } else if c == 'l' {
                p.list = true;
            } else if c == 'u' {
                p.upload = true;
            } else if c == 'm' {
                p.modify = true;
            } else if c == 'S' {
                p.show_hidden = true;
            } else if c == 'T' {
                p.play_media = true;
            } else if c == 'D' {
                p.force_download = true;
            }
            proof {
                let pre = tag@.take(i as int);
                let post = tag@.take(i + 1);
                assert(post =~= pre.push(c));
                assert forall|x: char| post.contains(x) <==> (pre.contains(x) || x == c) by {
                    if post.contains(x) {
                        let j = choose|j: int| 0 <= j < post.len() && post[j] == x;
                        if j < pre.len() {
                            assert(pre[j] == x);
                        }
                    }
                    if pre.contains(x) {
                        let j = choose|j: int| 0 <= j < pre.len() && pre[j] == x;
                        assert(post[j] == x);
                    }
                    if x == c {
                        assert(post[i as int] == x);
                    }
                }
            }
            i = i + 1;
        }
        proof {
            assert(tag@.take(tag@.len() as int) =~= tag@);
        }
        p
    }

    /// The canonical tag of this permission set (see [`tag_of_perms`]).
    pub fn to_tag(self) -> (s: String)
        ensures
            s@ == tag_of_perms(self),
    {
        let mut v: Vec<char> = Vec::new();
        push_flag(&mut v, self.access, 'r');
        push_flag(&mut v, self.list, 'l');
        push_flag(&mut v, self.upload, 'u');
        push_flag(&mut v, self.modify, 'm');
        push_flag(&mut v, self.show_hidden, 'S');
        push_flag(&mut v, self.play_media, 'T');
        push_flag(&mut v, self.force_download, 'D');
        if v.len() == 0 {
            v.push('0');
        }
        proof {
            assert(v@ =~= tag_of_perms(self));
        }
        string_of(v.as_slice())
    }

    /// Traditional webd guest default: can list and read.
    pub fn guest_default() -> (p: Perms)
        ensures
            p == guest_default_perms(),
    {
        Perms {
            access: true,
            list: true,
            upload: false,
            modify: false,
            show_hidden: false,
            play_media: false,
            force_download: false,
        }
    }
}

proof fn lemma_flag_contains(b: bool, c: char, x: char)
    ensures
        flag_char(b, c).contains(x) <==> (b && x == c),
{
    if b && x == c {
        assert(flag_char(b, c)[0] == x);
    }
}

/// The letters of a permission set, before the `0` fallback.
pub open spec fn perm_letters(p: Perms) -> Seq<char> {
    flag_char(p.access, 'r') + flag_char(p.list, 'l') + flag_char(p.upload, 'u')
        + flag_char(p.modify, 'm') + flag_char(p.show_hidden, 'S') + flag_char(p.play_media, 'T')
        + flag_char(p.force_download, 'D')
}

proof fn lemma_letters_contain(p: Perms, x: char)
    ensures
        perm_letters(p).contains(x) <==> ((p.access && x == 'r') || (p.list && x == 'l') || (
        p.upload && x == 'u') || (p.modify && x == 'm') || (p.show_hidden && x == 'S') || (
        p.play_media && x == 'T') || (p.force_download && x == 'D')),
{
    let s1 = flag_char(p.access, 'r');
    let s2 = s1 + flag_char(p.list, 'l');
    let s3 = s2 + flag_char(p.upload, 'u');
    let s4 = s3 + flag_char(p.modify, 'm');
    let s5 = s4 + flag_char(p.show_hidden, 'S');
    let s6 = s5 + flag_char(p.play_media, 'T');
    lemma_concat_contains(s1, flag_char(p.list, 'l'), x);
    lemma_concat_contains(s2, flag_char(p.upload, 'u'), x);
    lemma_concat_contains(s3, flag_char(p.modify, 'm'), x);
    lemma_concat_contains(s4, flag_char(p.show_hidden, 'S'), x);
    lemma_concat_contains(s5, flag_char(p.play_media, 'T'), x);
    lemma_concat_contains(s6, flag_char(p.force_download, 'D'), x);
    lemma_flag_contains(p.access, 'r', x);
    lemma_flag_contains(p.list, 'l', x);
    lemma_flag_contains(p.upload, 'u', x);
    lemma_flag_contains(p.modify, 'm', x);
    lemma_flag_contains(p.show_hidden, 'S', x);
    lemma_flag_contains(p.play_media, 'T', x);
    lemma_flag_contains(p.force_download, 'D', x);
}

/// Reading back the canonical tag of a permission set gives the same set.
pub proof fn law_perms_tag_roundtrip(p: Perms)
    ensures
        perms_of_tag(tag_of_perms(p)) == p,
{
    let s = perm_letters(p);
    lemma_letters_contain(p, 'r');
    lemma_letters_contain(p, 'l');
    lemma_letters_contain(p, 'u');
    lemma_letters_contain(p, 'm');
    lemma_letters_contain(p, 'S');
    lemma_letters_contain(p, 'T');
    lemma_letters_contain(p, 'D');
    lemma_letters_contain(p, '0');
    if s.len() == 0 {
        assert(p == no_perms());
    } else {
        if s == seq!['0'] {
            assert(s[0] == '0');
            assert(s.contains('0'));
        }
    }
}

proof fn lemma_concat_contains(a: Seq<char>, b: Seq<char>, x: char)
    ensures
        (a + b).contains(x) <==> (a.contains(x) || b.contains(x)),
{
    if (a + b).contains(x) {
        let j = choose|j: int| 0 <= j < (a + b).len() && (a + b)[j] == x;
        if j < a.len() {
            assert(a[j] == x);
        } else {
            assert(b[j - a.len()] == x);
        }
    }
    if a.contains(x) {
        let j = choose|j: int| 0 <= j < a.len() && a[j] == x;
        assert((a + b)[j] == x);
    }
    if b.contains(x) {
        let j = choose|j: int| 0 <= j < b.len() && b[j] == x;
        assert((a + b)[j + a.len()] == x);
    }
}


// ------------------------------------------------------------------ config

/// A configured user account.
#[derive(Clone, Debug)]
pub struct User {
    pub name: String,
    pub pass: String,
    pub perms: Perms,
}

pub struct UserView {
    pub name: Seq<char>,
    pub pass: Seq<char>,
    pub perms: Perms,
}

impl View for User {
    type V = UserView;

    open spec fn view(&self) -> UserView {
        UserView { name: self.name@, pass: self.pass@, perms: self.perms }
    }
}

/// The file server's configuration.
#[derive(Clone, Debug)]
pub struct Config {
    /// The shared directory.
    pub root: String,
    /// Listen addresses, `host:port`.
    pub listen: Vec<String>,
    pub users: Vec<User>,
    /// Permissions of requests without a session.
    pub guest: Perms,
    pub hide_tray: bool,
    pub browser: Option<String>,
}

pub struct ConfigView {
    pub root: Seq<char>,
    pub listen: Seq<Seq<char>>,
    pub users: Seq<UserView>,
    pub guest: Perms,
    pub hide_tray: bool,
    pub browser: Option<Seq<char>>,
}

pub open spec fn users_view(users: Seq<User>) -> Seq<UserView> {
    Seq::new(users.len(), |i: int| users[i]@)
}

pub open spec fn opt_view(o: Option<String>) -> Option<Seq<char>> {
    match o {
        Some(s) => Some(s@),
        None => None,
    }
}

impl View for Config {
    type V = ConfigView;

    open spec fn view(&self) -> ConfigView {
        ConfigView {
            root: self.root@,
            listen: self.listen.deep_view(),
            users: users_view(self.users@),
            guest: self.guest,
            hide_tray: self.hide_tray,
            browser: opt_view(self.browser),
        }
    }
}

/// The configuration before any directive: empty root, no listen address,
/// no users, guests may list and download.
pub open spec fn default_config() -> ConfigView {
    ConfigView {
        root: Seq::empty(),
        listen: Seq::empty(),
        users: Seq::empty(),
        guest: guest_default_perms(),
        hide_tray: false,
        browser: None,
    }
}

impl Default for Config {
    fn default() -> (c: Config)
        ensures
            c@ == default_config(),
    {
        let c = Config {
            root: String::new(),
            listen: Vec::new(),
            users: Vec::new(),
            guest: Perms::guest_default(),
            hide_tray: false,
            browser: None,
        };
        proof {
            assert(c@.listen =~= Seq::<Seq<char>>::empty());
            assert(c@.users =~= Seq::<UserView>::empty());
        }
        c
    }
}

/// What a rejected line lacks.
#[derive(Clone, Copy, Debug, PartialEq, Eq, Structural)]
pub enum ConfigErrorKind {
    RootRequiresPath,
    ListenRequiresAddress,
    UserRequiresTagUserPass,
    GuestRequiresTag,
}

/// A configuration line that could not be applied, with its 1-based number.
#[derive(Clone, Copy, Debug, PartialEq, Eq, Structural)]
pub struct ConfigError {
    pub line: usize,
    pub kind: ConfigErrorKind,
}

pub open spec fn error_text(kind: ConfigErrorKind) -> Seq<char> {
    match kind {
        ConfigErrorKind::RootRequiresPath => "Webd.Root requires a path"@,
        ConfigErrorKind::ListenRequiresAddress => "Webd.Listen requires an address or port"@,
        ConfigErrorKind::UserRequiresTagUserPass => "Webd.User requires <perm_tag> <user> <pass>"@,
        ConfigErrorKind::GuestRequiresTag => "Webd.Guest requires a perm tag"@,
    }
}

impl ConfigError {
    /// The error as a sentence: `line N: ...`.
    pub fn message(&self) -> (m: String)
        ensures
            m@ == "line "@ + dec_string(self.line as nat) + ": "@ + error_text(self.kind),
    {
        let mut v: Vec<char> = Vec::new();
        push_str(&mut v, "line ");
        push_decimal(&mut v, self.line as u64);
        push_str(&mut v, ": ");
        match self.kind {
            ConfigErrorKind::RootRequiresPath => push_str(&mut v, "Webd.Root requires a path"),
            ConfigErrorKind::ListenRequiresAddress => push_str(
                &mut v,
                "Webd.Listen requires an address or port",
            ),
            ConfigErrorKind::UserRequiresTagUserPass => push_str(
                &mut v,
                "Webd.User requires <perm_tag> <user> <pass>",
            ),
            ConfigErrorKind::GuestRequiresTag => push_str(&mut v, "Webd.Guest requires a perm tag"),
        }
        string_of(v.as_slice())
    }
}

/// Most users a configuration holds; later `Webd.User` lines are ignored.
pub const MAX_USERS: usize = 3;

/// Apply one raw line (number `lineno`) to a configuration.
#[verifier::opaque]
pub open spec fn apply_line(cfg: ConfigView, raw: Seq<char>, lineno: nat) -> Result<
    ConfigView,
    ConfigError,
> {
    let line = trim(raw);
    let toks = tokens_of(line);
    if line.len() == 0 || line[0] == '#' || toks.len() == 0 {
        Ok(cfg)
    } else {
        let key = ascii_lower(toks[0]);
        let args = toks.drop_first();
        let err = |k: ConfigErrorKind| ConfigError { line: lineno as usize, kind: k };
        if key == "webd.root"@ {
            if args.len() == 0 {
                Err(err(ConfigErrorKind::RootRequiresPath))
            } else {
                Ok(ConfigView { root: args[0], ..cfg })
            }
        } else if key == "webd.listen"@ {
            if args.len() == 0 {
                Err(err(ConfigErrorKind::ListenRequiresAddress))
            } else {
                Ok(ConfigView { listen: cfg.listen.push(normalized_listen(args[0])), ..cfg })
            }
        } else if key == "webd.user"@ {
            if args.len() < 3 {
                Err(err(ConfigErrorKind::UserRequiresTagUserPass))
            } else if cfg.users.len() >= MAX_USERS {
                Ok(cfg)
            } else {
                Ok(
                    ConfigView {
                        users: cfg.users.push(
                            UserView { name: args[1], pass: args[2], perms: perms_of_tag(args[0]) },
                        ),
                        ..cfg
                    },
                )
            }
        } else if key == "webd.guest"@ {
            if args.len() == 0 {
                Err(err(ConfigErrorKind::GuestRequiresTag))
            } else {
                Ok(ConfigView { guest: perms_of_tag(args[0]), ..cfg })
            }
        } else if key == "webd.hide"@ {
            Ok(ConfigView { hide_tray: true, ..cfg })
        } else if key == "webd.browser"@ {
            Ok(
                ConfigView {
                    browser: if args.len() == 0 {
                        None
                    } else {
                        Some(args[0])
                    },
                    ..cfg
                },
            )
        } else {
            Ok(cfg)
        }
    }
}

/// The configuration after the first `k` lines.
pub open spec fn parse_prefix(lines: Seq<Seq<char>>, k: int) -> Result<ConfigView, ConfigError>
    decreases k,
{
    if k <= 0 {
        Ok(default_config())
    } else {
        match parse_prefix(lines, k - 1) {
            Ok(cfg) => apply_line(cfg, lines[k - 1], k as nat),
            Err(e) => Err(e),
        }
    }
}

/// The configuration a text describes: lines applied in order, the first
/// rejected line reported; `0.0.0.0:9212` when no listen address is given.
pub open spec fn parse_config(text: Seq<char>) -> Result<ConfigView, ConfigError> {
    let lines = lines_of(text);
    match parse_prefix(lines, lines.len() as int) {
        Ok(cfg) => if cfg.listen.len() == 0 {
            Ok(ConfigView { listen: seq!["0.0.0.0:9212"@], ..cfg })
        } else {
            Ok(cfg)
        },
        Err(e) => Err(e),
    }
}

impl Config {
    /// Parse a `webd.conf` text (see [`parse_config`]).
    pub fn parse(text: &str) -> (r: Result<Config, ConfigError>)
        ensures
            match r {
                Ok(c) => parse_config(text@) == Ok::<ConfigView, ConfigError>(c@),
                Err(e) => parse_config(text@) == Err::<ConfigView, ConfigError>(e),
            },
    {
        let chars = chars_of(text);
        let lines = split_lines(chars.as_slice());
        let mut cfg = Config::default();
        let mut k: usize = 0;
        while k < lines.len()
            invariant
                0 <= k <= lines@.len(),
                lines.deep_view() == lines_of(text@),
                parse_prefix(lines.deep_view(), k as int) == Ok::<ConfigView, ConfigError>(cfg@),
            decreases lines@.len() - k,
        {
            proof {
                lemma_deep_view_index(lines, k as int);
            }
            match cfg.apply_line(lines[k].as_slice(), k + 1) {
                Ok(()) => {},
                Err(e) => {
                    proof {
                        lemma_parse_prefix_stays_err(lines.deep_view(), k + 1, lines@.len() as int);
                    }
                    return Err(e);
                },
            }
            k = k + 1;
        }
        if cfg.listen.len() == 0 {
            let dflt = chars_of("0.0.0.0:9212");
            push_string(&mut cfg.listen, string_of(dflt.as_slice()));
            proof {
                assert(cfg@.listen =~= seq!["0.0.0.0:9212"@]);
            }
        }
        Ok(cfg)
    }

    /// Apply one raw line (see [`apply_line`]).
    fn apply_line(&mut self, raw: &[char], lineno: usize) -> (r: Result<(), ConfigError>)
        ensures
            match r {
                Ok(()) => apply_line(old(self)@, raw@, lineno as nat) == Ok::<
                    ConfigView,
                    ConfigError,
                >(final(self)@),
                Err(e) => apply_line(old(self)@, raw@, lineno as nat) == Err::<
                    ConfigView,
                    ConfigError,
                >(e),
            },
    {
        proof {
            reveal(apply_line);
        }
        let line = trim_chars(raw);
        if line.len() == 0 || line[0] == '#' {
            return Ok(());
        }
        let toks = tokenize(line.as_slice());
        if toks.len() == 0 {
            return Ok(());
        }
        proof {
            lemma_deep_view_index(toks, 0);
            if toks@.len() > 1 {
                lemma_deep_view_index(toks, 1);
            }
            if toks@.len() > 2 {
                lemma_deep_view_index(toks, 2);
            }
            if toks@.len() > 3 {
                lemma_deep_view_index(toks, 3);
            }
        }
        let key = ascii_lowercase(toks[0].as_slice());
        let nargs = toks.len() - 1;
        if chars_eq_str(key.as_slice(), "webd.root") {
            if nargs == 0 {
                return Err(ConfigError { line: lineno, kind: ConfigErrorKind::RootRequiresPath });
            }
            self.root = string_of(toks[1].as_slice());
        } else if chars_eq_str(key.as_slice(), "webd.listen") {
            if nargs == 0 {
                return Err(
                    ConfigError { line: lineno, kind: ConfigErrorKind::ListenRequiresAddress },
                );
            }
            let l = normalize_listen(toks[1].as_slice());
            push_string(&mut self.listen, string_of(l.as_slice()));
        } else if chars_eq_str(key.as_slice(), "webd.user") {
            if nargs < 3 {
                return Err(
                    ConfigError { line: lineno, kind: ConfigErrorKind::UserRequiresTagUserPass },
                );
            }
            if self.users.len() >= MAX_USERS {
                return Ok(());
            }
            let u = User {
                perms: Perms::from_tag_chars(toks[1].as_slice()),
                name: string_of(toks[2].as_slice()),
                pass: string_of(toks[3].as_slice()),
            };
            let ghost before = self.users@;
            self.users.push(u);
            proof {
                assert(users_view(self.users@) =~= users_view(before).push(u@));
            }
        } else if chars_eq_str(key.as_slice(), "webd.guest") {
            if nargs == 0 {
                return Err(ConfigError { line: lineno, kind: ConfigErrorKind::GuestRequiresTag });
            }
            self.guest = Perms::from_tag_chars(toks[1].as_slice());
        } else if chars_eq_str(key.as_slice(), "webd.hide") {
            self.hide_tray = true;
        } else if chars_eq_str(key.as_slice(), "webd.browser") {
            self.browser = if nargs == 0 {
                None
            } else {
                Some(string_of(toks[1].as_slice()))
            };
        }
        Ok(())
    }
}

proof fn lemma_parse_prefix_stays_err(lines: Seq<Seq<char>>, k: int, n: int)
    requires
        0 <= k <= n,
        parse_prefix(lines, k) is Err,
    ensures
        parse_prefix(lines, n) == parse_prefix(lines, k),
    decreases n - k,
{
    if k < n {
        lemma_parse_prefix_stays_err(lines, k + 1, n);
    }
}


proof fn lemma_prefix_bounds(lines: Seq<Seq<char>>, k: int)
    requires
        0 <= k <= lines.len(),
    ensures
        parse_prefix(lines, k) matches Ok(c) ==> c.users.len() <= MAX_USERS,
    decreases k,
{
    reveal(apply_line);
    if k > 0 {
        lemma_prefix_bounds(lines, k - 1);
    }
}

/// A configuration never holds more than three users: later `Webd.User`
/// lines are ignored.
pub proof fn law_users_capped_at_three(text: Seq<char>)
    ensures
        parse_config(text) matches Ok(c) ==> c.users.len() <= MAX_USERS,
{
    let lines = lines_of(text);
    lemma_prefix_bounds(lines, lines.len() as int);
}

/// A parsed configuration always has a listen address.
pub proof fn law_listen_never_empty(text: Seq<char>)
    ensures
        parse_config(text) matches Ok(c) ==> c.listen.len() >= 1,
{
}

/// The directive of a raw line: its lowercased first token and the other
/// tokens, or `None` for a blank or comment line.
pub open spec fn directive_of(raw: Seq<char>) -> Option<(Seq<char>, Seq<Seq<char>>)> {
    let line = trim(raw);
    let toks = tokens_of(line);
    if line.len() == 0 || line[0] == '#' || toks.len() == 0 {
        None
    } else {
        Some((ascii_lower(toks[0]), toks.drop_first()))
    }
}

/// The listen addresses the first `k` lines give, in line order.
pub open spec fn listen_values(lines: Seq<Seq<char>>, k: int) -> Seq<Seq<char>>
    decreases k,
{
    if k <= 0 {
        Seq::empty()
    } else {
        let rest = listen_values(lines, k - 1);
        match directive_of(lines[k - 1]) {
            Some((key, args)) => if key == "webd.listen"@ && args.len() > 0 {
                rest.push(normalized_listen(args[0]))
            } else {
                rest
            },
            None => rest,
        }
    }
}

/// Whether a raw line is a `key` directive.
pub open spec fn is_directive(raw: Seq<char>, key: Seq<char>) -> bool {
    match directive_of(raw) {
        Some((d, _)) => d == key,
        None => false,
    }
}

/// Whether one of the first `k` lines is a `key` directive.
pub open spec fn has_directive(lines: Seq<Seq<char>>, k: int, key: Seq<char>) -> bool {
    exists|j: int| 0 <= j < k && #[trigger] is_directive(lines[j], key)
}

proof fn lemma_prefix_listen_guest(lines: Seq<Seq<char>>, k: int)
    requires
        0 <= k <= lines.len(),
    ensures
        parse_prefix(lines, k) matches Ok(c) ==> c.listen == listen_values(lines, k) && (!has_directive(
            lines,
            k,
            "webd.guest"@,
        ) ==> c.guest == guest_default_perms()),
    decreases k,
{
    reveal(apply_line);
    reveal_strlit("webd.root");
    reveal_strlit("webd.listen");
    reveal_strlit("webd.user");
    reveal_strlit("webd.guest");
    reveal_strlit("webd.hide");
    reveal_strlit("webd.browser");
    if k > 0 {
        lemma_prefix_listen_guest(lines, k - 1);
        let raw = lines[k - 1];
        if let Ok(c0) = parse_prefix(lines, k - 1) {
            if let Ok(c) = apply_line(c0, raw, k as nat) {
                let line = trim(raw);
                let toks = tokens_of(line);
                if line.len() == 0 || line[0] == '#' || toks.len() == 0 {
                    assert(c == c0);
                    assert(directive_of(raw) is None);
                } else {
                    let key = ascii_lower(toks[0]);
                    let args = toks.drop_first();
                    assert(directive_of(raw) == Some((key, args)));
                    if key == "webd.listen"@ {
                        assert("webd.root"@[5] != "webd.listen"@[5]);
                        assert(args.len() > 0);
                        assert(c.listen == c0.listen.push(normalized_listen(args[0])));
                    } else {
                        assert(c.listen == c0.listen);
                    }
                    if key != "webd.guest"@ {
                        assert(c.guest == c0.guest);
                    }
                }
                assert(c.listen == listen_values(lines, k));
                if !has_directive(lines, k, "webd.guest"@) {
                    assert forall|j: int| 0 <= j < k - 1 implies !#[trigger] is_directive(
                        lines[j],
                        "webd.guest"@,
                    ) by {
                        assert(!is_directive(lines[j], "webd.guest"@));
                    }
                    assert(!is_directive(lines[k - 1], "webd.guest"@));
                }
            }
        }
    }
}

/// The listen addresses of a configuration are those of its `Webd.Listen`
/// lines in order, or `0.0.0.0:9212` when there is none; without a
/// `Webd.Guest` line guests keep the default permissions.
pub proof fn law_listen_and_guest_defaults(text: Seq<char>)
    ensures
        parse_config(text) matches Ok(c) ==> {
            let lines = lines_of(text);
            let l = listen_values(lines, lines.len() as int);
            &&& c.listen == (if l.len() == 0 {
                seq!["0.0.0.0:9212"@]
            } else {
                l
            })
            &&& !has_directive(lines, lines.len() as int, "webd.guest"@) ==> c.guest
                == guest_default_perms()
        },
{
    let lines = lines_of(text);
    lemma_prefix_listen_guest(lines, lines.len() as int);
}

/// Guests of a configuration without `Webd.Guest` may list and download,
/// and nothing else.
pub proof fn law_guest_default_is_list_and_read()
    ensures
        default_config().guest.access && default_config().guest.list,
        !default_config().guest.upload && !default_config().guest.modify,
        !default_config().guest.show_hidden && !default_config().guest.play_media
            && !default_config().guest.force_download,
{
}

/// The tokens of a raw line.
pub open spec fn line_tokens(raw: Seq<char>) -> Seq<Seq<char>> {
    tokens_of(trim(raw))
}

/// Index of the last of the first `k` lines that is a `key` directive.
pub open spec fn last_directive(lines: Seq<Seq<char>>, k: int, key: Seq<char>) -> Option<int>
    decreases k,
{
    if k <= 0 {
        None
    } else if is_directive(lines[k - 1], key) {
        Some(k - 1)
    } else {
        last_directive(lines, k - 1, key)
    }
}

/// The users the first `k` lines declare: one per `Webd.User <tag> <name>
/// <pass>` line, in order, the first three only.
pub open spec fn declared_users(lines: Seq<Seq<char>>, k: int) -> Seq<UserView>
    decreases k,
{
    if k <= 0 {
        Seq::empty()
    } else {
        let rest = declared_users(lines, k - 1);
        let t = line_tokens(lines[k - 1]);
        if is_directive(lines[k - 1], "webd.user"@) && t.len() >= 4 && rest.len() < 3 {
            rest.push(UserView { name: t[2], pass: t[3], perms: perms_of_tag(t[1]) })
        } else {
            rest
        }
    }
}

/// What the first `k` lines say, directive by directive: the root and the
/// guest tag of the last `Webd.Root` / `Webd.Guest` line, the declared
/// users, whether a `Webd.Hide` line was seen, and the browser of the last
/// `Webd.Browser` line (none when it gives no value).
pub open spec fn lines_describe(lines: Seq<Seq<char>>, k: int, c: ConfigView) -> bool {
    &&& c.root == match last_directive(lines, k, "webd.root"@) {
        Some(j) => line_tokens(lines[j])[1],
        None => Seq::empty(),
    }
    &&& c.guest == match last_directive(lines, k, "webd.guest"@) {
        Some(j) => perms_of_tag(line_tokens(lines[j])[1]),
        None => guest_default_perms(),
    }
    &&& c.users == declared_users(lines, k)
    &&& c.hide_tray == (last_directive(lines, k, "webd.hide"@) is Some)
    &&& c.browser == match last_directive(lines, k, "webd.browser"@) {
        Some(j) => if line_tokens(lines[j]).len() >= 2 {
            Some(line_tokens(lines[j])[1])
        } else {
            None
        },
        None => None,
    }
}

proof fn lemma_prefix_describes(lines: Seq<Seq<char>>, k: int)
    requires
        0 <= k <= lines.len(),
    ensures
        parse_prefix(lines, k) matches Ok(c) ==> lines_describe(lines, k, c),
    decreases k,
{
    reveal(apply_line);
    reveal_strlit("webd.root");
    reveal_strlit("webd.listen");
    reveal_strlit("webd.user");
    reveal_strlit("webd.guest");
    reveal_strlit("webd.hide");
    reveal_strlit("webd.browser");
    assert("webd.root"@[5] != "webd.listen"@[5]);
    assert("webd.root"@[5] != "webd.user"@[5]);
    assert("webd.root"@[5] != "webd.guest"@[5]);
    assert("webd.root"@[5] != "webd.hide"@[5]);
    assert("webd.root"@[5] != "webd.browser"@[5]);
    assert("webd.listen"@[5] != "webd.user"@[5]);
    assert("webd.listen"@[5] != "webd.guest"@[5]);
    assert("webd.listen"@[5] != "webd.hide"@[5]);
    assert("webd.listen"@[5] != "webd.browser"@[5]);
    assert("webd.user"@[5] != "webd.guest"@[5]);
    assert("webd.user"@[5] != "webd.hide"@[5]);
    assert("webd.user"@[5] != "webd.browser"@[5]);
    assert("webd.guest"@[5] != "webd.hide"@[5]);
    assert("webd.guest"@[5] != "webd.browser"@[5]);
    assert("webd.hide"@[5] != "webd.browser"@[5]);
    if k > 0 {
        lemma_prefix_describes(lines, k - 1);
        let raw = lines[k - 1];
        if let Ok(c0) = parse_prefix(lines, k - 1) {
            if let Ok(c) = apply_line(c0, raw, k as nat) {
                let line = trim(raw);
                let toks = tokens_of(line);
                assert(toks == line_tokens(raw));
                if line.len() == 0 || line[0] == '#' || toks.len() == 0 {
                    assert(c == c0);
                    assert(directive_of(raw) is None);
                    assert(!is_directive(raw, "webd.user"@));
                    assert(!is_directive(raw, "webd.guest"@));
                    assert(last_directive(lines, k, "webd.guest"@) == last_directive(lines, k - 1, "webd.guest"@));
                } else {
                    let key = ascii_lower(toks[0]);
                    let args = toks.drop_first();
                    assert(directive_of(raw) == Some((key, args)));
                    assert(is_directive(raw, "webd.guest"@) == (key == "webd.guest"@));
                    assert(is_directive(raw, "webd.browser"@) == (key == "webd.browser"@));
                    if key == "webd.root"@ {
                        assert(c.root == toks[1]);
                        assert(c.users == c0.users && c.guest == c0.guest && c.hide_tray == c0.hide_tray
                            && c.browser == c0.browser);
                    } else if key == "webd.listen"@ {
                        assert(c.users == c0.users && c.guest == c0.guest && c.hide_tray == c0.hide_tray
                            && c.browser == c0.browser && c.root == c0.root);
                    } else if key == "webd.user"@ {
                        assert(toks.len() >= 4);
                        assert(c.root == c0.root && c.guest == c0.guest && c.hide_tray == c0.hide_tray
                            && c.browser == c0.browser);
                    } else if key == "webd.guest"@ {
                        assert(c.guest == perms_of_tag(toks[1]));
                        assert(c.users == c0.users && c.root == c0.root && c.hide_tray == c0.hide_tray
                            && c.browser == c0.browser);
                    } else if key == "webd.hide"@ {
                        assert(c.users == c0.users && c.root == c0.root && c.guest == c0.guest
                            && c.browser == c0.browser && c.hide_tray);
                    } else if key == "webd.browser"@ {
                        assert(c.users == c0.users && c.root == c0.root && c.guest == c0.guest
                            && c.hide_tray == c0.hide_tray);
                    } else {
                        assert(c == c0);
                    }
                }
                assert(lines_describe(lines, k, c));
            }
        }
    }
}

/// Every directive says what it names: the root is the value of the last
/// `Webd.Root` line (empty without one), guests get the tag of the last
/// `Webd.Guest` line (list and download without one), the users are those
/// of the first three `Webd.User <tag> <name> <pass>` lines in order,
/// `Webd.Hide` hides the tray, and the browser is that of the last
/// `Webd.Browser` line.
pub proof fn law_directives_set_their_fields(text: Seq<char>)
    ensures
        parse_config(text) matches Ok(c) ==> lines_describe(lines_of(text), lines_of(text).len() as int, c),
{
    let lines = lines_of(text);
    lemma_prefix_describes(lines, lines.len() as int);
}

/// Each permission letter grants exactly its permission: `r` download,
/// `l` list, `u` upload and mkdir, `m` rename and delete, `S` hidden
/// files, `T` media playback, `D` forced download; the tag `0` grants
/// nothing.
pub proof fn law_tag_letters_grant(tag: Seq<char>)
    ensures
        tag != seq!['0'] ==> {
            let p = perms_of_tag(tag);
            &&& p.access == tag.contains('r')
            &&& p.list == tag.contains('l')
            &&& p.upload == tag.contains('u')
            &&& p.modify == tag.contains('m')
            &&& p.show_hidden == tag.contains('S')
            &&& p.play_media == tag.contains('T')
            &&& p.force_download == tag.contains('D')
        },
        !perms_of_tag(seq!['0']).access && !perms_of_tag(seq!['0']).list && !perms_of_tag(seq!['0']).upload
            && !perms_of_tag(seq!['0']).modify && !perms_of_tag(seq!['0']).show_hidden && !perms_of_tag(
            seq!['0'],
        ).play_media && !perms_of_tag(seq!['0']).force_download,
{
}

} // verus!

//! Session-based authentication.
//!
//! Sessions are kept in memory; a restart of the server invalidates all of
//! them. The session cookie is `flyo_sid`, HttpOnly + SameSite=Lax.
//!
//! Effective permissions for a request come from one of two places:
//!   - if a valid session cookie is present → the matching user's perms
//!   - otherwise                            → the guest's perms
use vstd::prelude::*;

use crate::config::{Config, ConfigView, Perms, User, UserView};
use crate::text::{
    chars_of, has_prefix, is_ascii_alnum, lemma_deep_view_index, push_str, slice_to_vec,
    split_chars, split_on, starts_with_str, string_of, trim, trim_chars,
};

verus! {

/// Name of the session cookie.
pub const SESSION_COOKIE: &'static str = "flyo_sid";

/// Length of a session token.
pub const TOKEN_LEN: usize = 32;

/// `rand::rng().random_range(0..n)`: a uniformly random index below `n`.
/// Only the range of the result is stated; the value is random.
#[verifier::external_body]
pub(crate) fn random_below(n: usize) -> (r: usize)
    requires
        n > 0,
    ensures
        r < n,
{
    rand::Rng::random_range(&mut rand::rng(), 0..n)
}

/// The `i`-th character of `a..z A..Z 0..9`.
pub open spec fn token_alphabet(i: int) -> char {
    if i < 26 {
        ((i + 97) as u32) as char
    } else if i < 52 {
        ((i - 26 + 65) as u32) as char
    } else {
        ((i - 52 + 48) as u32) as char
    }
}

fn token_char(i: usize) -> (c: char)
    requires
        i < 62,
    ensures
        c == token_alphabet(i as int),
        is_ascii_alnum(c),
{
    if i < 26 {
        ((i as u8) + 97) as char
    } else if i < 52 {
        ((i as u8) - 26 + 65) as char
    } else {
        ((i as u8) - 52 + 48) as char
    }
}

/// A well-formed session token: 32 ASCII letters and digits.
pub open spec fn token_wf(t: Seq<char>) -> bool {
    t.len() == TOKEN_LEN && forall|i: int| 0 <= i < t.len() ==> is_ascii_alnum(#[trigger] t[i])
}

/// A random 32-character alphanumeric token (~190 bits of entropy).
pub fn gen_token() -> (t: String)
    ensures
        token_wf(t@),
{
    let mut v: Vec<char> = Vec::new();
    let mut i: usize = 0;
    while i < TOKEN_LEN
        invariant
            0 <= i <= TOKEN_LEN,
            v@.len() == i,
            forall|k: int| 0 <= k < v@.len() ==> is_ascii_alnum(#[trigger] v@[k]),
        decreases TOKEN_LEN - i,
    {
        v.push(token_char(random_below(62)));
        i = i + 1;
    }
    string_of(v.as_slice())
}

// ---------------------------------------------------------------- sessions

/// The entry list represents the map: tokens are unique and the entries
/// are exactly the map's.
pub open spec fn session_table_wf(v: Seq<(String, String)>, m: Map<Seq<char>, Seq<char>>) -> bool {
    &&& forall|i: int, j: int| 0 <= i < j < v.len() ==> (#[trigger] v[i]).0@ != (#[trigger] v[j]).0@
    &&& forall|i: int| 0 <= i < v.len() ==> m.dom().contains((#[trigger] v[i]).0@) && m[v[i].0@]
        == v[i].1@
    &&& forall|t: Seq<char>| #[trigger] m.dom().contains(t) ==> exists|i: int|
        0 <= i < v.len() && (#[trigger] v[i]).0@ == t
}

proof fn lemma_session_len(v: Seq<(String, String)>, m: Map<Seq<char>, Seq<char>>)
    requires
        session_table_wf(v, m),
    ensures
        m.dom().finite(),
        m.len() == v.len(),
{
    let keys = Seq::new(v.len(), |i: int| v[i].0@);
    assert(keys.no_duplicates()) by {
        assert forall|i: int, j: int| 0 <= i < keys.len() && 0 <= j < keys.len() && i != j implies keys[i]
            != keys[j] by {
            if i < j {
                assert(v[i].0@ != v[j].0@);
            } else {
                assert(v[j].0@ != v[i].0@);
            }
        }
    }
    keys.unique_seq_to_set();
    assert(m.dom() =~= keys.to_set()) by {
        assert forall|t: Seq<char>| m.dom().contains(t) implies keys.to_set().contains(t) by {
            let i = choose|i: int| 0 <= i < v.len() && (#[trigger] v[i]).0@ == t;
            assert(keys[i] == t);
        }
        assert forall|t: Seq<char>| keys.to_set().contains(t) implies m.dom().contains(t) by {
            let i = choose|i: int| 0 <= i < keys.len() && keys[i] == t;
            assert(v[i].0@ == t);
        }
    }
    vstd::seq_lib::seq_to_set_is_finite(keys);
}

/// In-memory session table: token → user name.
pub struct SessionStore {
    entries: Vec<(String, String)>,
    table: Ghost<Map<Seq<char>, Seq<char>>>,
}

impl View for SessionStore {
    type V = Map<Seq<char>, Seq<char>>;

    closed spec fn view(&self) -> Map<Seq<char>, Seq<char>> {
        self.table@
    }
}

/// The sessions that remain when every session of `user` is dropped.
pub open spec fn without_user(m: Map<Seq<char>, Seq<char>>, user: Seq<char>) -> Map<
    Seq<char>,
    Seq<char>,
> {
    m.restrict(Set::new(|t: Seq<char>| m[t] != user))
}

impl SessionStore {
    #[verifier::type_invariant]
    spec fn inv(self) -> bool {
        session_table_wf(self.entries@, self.table@)
    }

    /// An empty store.
    pub fn new() -> (s: SessionStore)
        ensures
            s@ == Map::<Seq<char>, Seq<char>>::empty(),
    {
        SessionStore { entries: Vec::new(), table: Ghost(Map::empty()) }
    }

    /// Index of the entry of `token`, if any.
    fn find(&self, token: &String) -> (r: Option<usize>)
        ensures
            match r {
                Some(i) => i < self.entries@.len() && self.entries@[i as int].0@ == token@
                    && self@.dom().contains(token@),
                None => !self@.dom().contains(token@),
            },
    {
        proof {
            use_type_invariant(self);
        }
        let mut i: usize = 0;
        while i < self.entries.len()
            invariant
                0 <= i <= self.entries@.len(),
                session_table_wf(self.entries@, self.table@),
                forall|k: int| 0 <= k < i ==> (#[trigger] self.entries@[k]).0@ != token@,
            decreases self.entries@.len() - i,
        {
            if self.entries[i].0 == *token {
                return Some(i);
            }
            i = i + 1;
        }
        None
    }

    /// Open a session for `username`; returns its new token.
    pub fn create(&mut self, username: &str) -> (t: String)
        ensures
            token_wf(t@),
            final(self)@ == old(self)@.insert(t@, username@),
    {
        let token = gen_token();
        self.insert(token.clone(), username.to_owned());
        token
    }

    /// Set the user of a token.
    fn insert(&mut self, token: String, user: String)
        ensures
            final(self)@ == old(self)@.insert(token@, user@),
    {
        let idx = self.find(&token);
        let mut cur = SessionStore::new();
        std::mem::swap(self, &mut cur);
        proof {
            use_type_invariant(&cur);
        }
        let ghost m = cur.table@;
        let ghost v = cur.entries@;
        let ghost tv = token@;
        let ghost uv = user@;
        let SessionStore { entries, table: _ } = cur;
        let mut entries = entries;
        match idx {
            Some(i) => {
                entries.set(i, (token, user));
                proof {
                    let v2 = entries@;
                    let m2 = m.insert(tv, uv);
                    assert forall|t: Seq<char>| #[trigger] m2.dom().contains(t) implies exists|j: int|
                        0 <= j < v2.len() && (#[trigger] v2[j]).0@ == t by {
                        if t == tv {
                            assert(v2[i as int].0@ == t);
                        } else {
                            let j = choose|j: int| 0 <= j < v.len() && (#[trigger] v[j]).0@ == t;
                            assert(v2[j].0@ == t);
                        }
                    }
                    assert(session_table_wf(v2, m2));
                }
            },
            None => {
                entries.push((token, user));
                proof {
                    let v2 = entries@;
                    let m2 = m.insert(tv, uv);
                    assert forall|x: int, y: int| 0 <= x < y < v2.len() implies (#[trigger] v2[x]).0@
                        != (#[trigger] v2[y]).0@ by {
                        if y == v.len() {
                            assert(m.dom().contains(v[x].0@));
                        }
                    }
                    assert forall|t: Seq<char>| #[trigger] m2.dom().contains(t) implies exists|j: int|
                        0 <= j < v2.len() && (#[trigger] v2[j]).0@ == t by {
                        if t == tv {
                            assert(v2[v.len() as int].0@ == t);
                        } else {
                            let j = choose|j: int| 0 <= j < v.len() && (#[trigger] v[j]).0@ == t;
                            assert(v2[j].0@ == t);
                        }
                    }
                    assert(session_table_wf(v2, m2));
                }
            },
        }
        *self = SessionStore { entries, table: Ghost(m.insert(tv, uv)) };
    }

    /// The user of a session token, if the token is known.
    pub fn resolve(&self, token: &str) -> (r: Option<String>)
        ensures
            match r {
                Some(u) => self@.dom().contains(token@) && u@ == self@[token@],
                None => !self@.dom().contains(token@),
            },
    {
        proof {
            use_type_invariant(self);
        }
        let t = token.to_owned();
        match self.find(&t) {
            Some(i) => Some(self.entries[i].1.clone()),
            None => None,
        }
    }

    /// Forget one session.
    pub fn evict(&mut self, token: &str)
        ensures
            final(self)@ == old(self)@.remove(token@),
    {
        let t = token.to_owned();
        let idx = self.find(&t);
        let mut cur = SessionStore::new();
        std::mem::swap(self, &mut cur);
        proof {
            use_type_invariant(&cur);
        }
        let ghost m = cur.table@;
        let ghost v = cur.entries@;
        let ghost tv = t@;
        let SessionStore { entries, table: _ } = cur;
        let mut entries = entries;
        match idx {
            Some(i) => {
                entries.remove(i);
                proof {
                    let v2 = entries@;
                    let m2 = m.remove(tv);
                    assert forall|k: int| 0 <= k < v2.len() implies #[trigger] v2[k] == (if k < i {
                        v[k]
                    } else {
                        v[k + 1]
                    }) by {}
                    assert forall|x: int, y: int| 0 <= x < y < v2.len() implies (#[trigger] v2[x]).0@
                        != (#[trigger] v2[y]).0@ by {
                        let xx = if x < i { x } else { x + 1 };
                        let yy = if y < i { y } else { y + 1 };
                        assert(v[xx].0@ != v[yy].0@);
                    }
                    assert forall|k: int| 0 <= k < v2.len() implies m2.dom().contains(
                        (#[trigger] v2[k]).0@,
                    ) && m2[v2[k].0@] == v2[k].1@ by {
                        let kk = if k < i { k } else { k + 1 };
                        if kk < i {
                            assert(v[kk].0@ != v[i as int].0@);
                        } else {
                            assert(v[i as int].0@ != v[kk].0@);
                        }
                    }
                    assert forall|s: Seq<char>| #[trigger] m2.dom().contains(s) implies exists|j: int|
                        0 <= j < v2.len() && (#[trigger] v2[j]).0@ == s by {
                        let j = choose|j: int| 0 <= j < v.len() && (#[trigger] v[j]).0@ == s;
                        if j < i {
                            assert(v2[j].0@ == s);
                        } else {
                            assert(j != i);
                            assert(v2[j - 1].0@ == s);
                        }
                    }
                    assert(session_table_wf(v2, m2));
                }
            },
            None => {
                proof {
                    assert(m.remove(tv) =~= m);
                }
            },
        }
        *self = SessionStore { entries, table: Ghost(m.remove(tv)) };
    }

    /// Invalidate every session belonging to a given user — used on logout.
    pub fn drop_by_user(&mut self, username: &str)
        ensures
            final(self)@ == without_user(old(self)@, username@),
    {
        let name = username.to_owned();
        let mut cur = SessionStore::new();
        std::mem::swap(self, &mut cur);
        proof {
            use_type_invariant(&cur);
        }
        let ghost m = cur.table@;
        let ghost v = cur.entries@;
        let ghost live = without_user(m, name@);
        let SessionStore { entries, table: _ } = cur;
        let mut kept: Vec<(String, String)> = Vec::new();
        let ghost mut src: Seq<int> = Seq::empty();
        let ghost mut rank: Seq<int> = Seq::empty();
        let mut i: usize = 0;
        while i < entries.len()
            invariant
                0 <= i <= v.len(),
                entries@ == v,
                kept@.len() == src.len(),
                rank.len() == i,
                forall|t: int|
                    0 <= t < src.len() ==> 0 <= #[trigger] src[t] < i && kept@[t] == v[src[t]]
                        && v[src[t]].1@ != name@,
                forall|x: int, y: int| 0 <= x < y < src.len() ==> #[trigger] src[x] < #[trigger] src[y],
                forall|j: int|
                    0 <= j < i && v[j].1@ != name@ ==> 0 <= #[trigger] rank[j] < src.len()
                        && src[rank[j]] == j,
            decreases v.len() - i,
        {
            if entries[i].1 != name {
                proof {
                    rank = rank.push(src.len() as int);
                    src = src.push(i as int);
                }
                kept.push((entries[i].0.clone(), entries[i].1.clone()));
            } else {
                proof {
                    rank = rank.push(-1);
                }
            }
            i = i + 1;
        }
        proof {
            let k = kept@;
            assert forall|x: int, y: int| 0 <= x < y < k.len() implies (#[trigger] k[x]).0@
                != (#[trigger] k[y]).0@ by {
                assert(src[x] < src[y]);
                assert(v[src[x]].0@ != v[src[y]].0@);
            }
            assert forall|t: int| 0 <= t < k.len() implies live.dom().contains((#[trigger] k[t]).0@)
                && live[k[t].0@] == k[t].1@ by {
                assert(m.dom().contains(v[src[t]].0@));
            }
            assert forall|s: Seq<char>| #[trigger] live.dom().contains(s) implies exists|t: int|
                0 <= t < k.len() && (#[trigger] k[t]).0@ == s by {
                let j = choose|j: int| 0 <= j < v.len() && (#[trigger] v[j]).0@ == s;
                assert(k[rank[j]].0@ == s);
            }
        }
        *self = SessionStore { entries: kept, table: Ghost(live) };
    }

    /// Number of open sessions.
    pub fn len(&self) -> (n: usize)
        ensures
            n == self@.len(),
            self@.dom().finite(),
    {
        proof {
            use_type_invariant(self);
            lemma_session_len(self.entries@, self.table@);
        }
        self.entries.len()
    }
}

// ------------------------------------------------------------------ laws

/// A token opened for a user resolves to that user.
pub proof fn law_created_session_resolves(m: Map<Seq<char>, Seq<char>>, t: Seq<char>, user: Seq<char>)
    ensures
        m.insert(t, user).dom().contains(t),
        m.insert(t, user)[t] == user,
{
}

/// Evicting a token ends its session and leaves the others as they were.
pub proof fn law_evict_ends_only_that_session(
    m: Map<Seq<char>, Seq<char>>,
    t: Seq<char>,
    other: Seq<char>,
)
    requires
        other != t,
    ensures
        !m.remove(t).dom().contains(t),
        m.remove(t).dom().contains(other) == m.dom().contains(other),
        m.dom().contains(other) ==> m.remove(t)[other] == m[other],
{
}

/// After dropping a user's sessions no token resolves to that user, and
/// every session of another user is kept.
pub proof fn law_drop_by_user_keeps_others(
    m: Map<Seq<char>, Seq<char>>,
    user: Seq<char>,
    t: Seq<char>,
)
    ensures
        without_user(m, user).dom().contains(t) ==> without_user(m, user)[t] != user,
        m.dom().contains(t) && m[t] != user ==> without_user(m, user).dom().contains(t)
            && without_user(m, user)[t] == m[t],
{
}

// ------------------------------------------------------------ identity

/// Index of the first user called `name`.
pub open spec fn user_named_from(users: Seq<UserView>, name: Seq<char>, i: int) -> Option<int>
    decreases users.len() - i,
{
    if i < 0 || i >= users.len() {
        None
    } else if users[i].name == name {
        Some(i)
    } else {
        user_named_from(users, name, i + 1)
    }
}

/// The identity a request has: the user its session belongs to, when the
/// token is known and that user is still configured; otherwise a guest.
pub open spec fn identity_of(
    cfg: ConfigView,
    sessions: Map<Seq<char>, Seq<char>>,
    token: Option<Seq<char>>,
) -> (Option<Seq<char>>, Perms) {
    match token {
        Some(t) => if sessions.dom().contains(t) {
            match user_named_from(cfg.users, sessions[t], 0) {
                Some(i) => (Some(cfg.users[i].name), cfg.users[i].perms),
                None => (None, cfg.guest),
            }
        } else {
            (None, cfg.guest)
        },
        None => (None, cfg.guest),
    }
}

/// The identity and permissions of a request.
#[derive(Clone, Debug)]
pub struct CurrentUser {
    /// `Some(name)` for an authenticated request, `None` for a guest.
    pub user: Option<String>,
    pub perms: Perms,
}

pub open spec fn opt_str_view(o: Option<&str>) -> Option<Seq<char>> {
    match o {
        Some(s) => Some(s@),
        None => None,
    }
}

pub open spec fn opt_string_view(o: Option<String>) -> Option<Seq<char>> {
    match o {
        Some(s) => Some(s@),
        None => None,
    }
}

/// Index of the first user called `name` (see [`user_named_from`]).
pub fn find_user(users: &Vec<User>, name: &String) -> (r: Option<usize>)
    ensures
        match r {
            Some(i) => user_named_from(crate::config::users_view(users@), name@, 0) == Some(i as int)
                && i < users@.len(),
            None => user_named_from(crate::config::users_view(users@), name@, 0) is None,
        },
{
    let ghost uv = crate::config::users_view(users@);
    let mut i: usize = 0;
    while i < users.len()
        invariant
            0 <= i <= users@.len(),
            uv == crate::config::users_view(users@),
            user_named_from(uv, name@, 0) == user_named_from(uv, name@, i as int),
        decreases users@.len() - i,
    {
        if users[i].name == *name {
            return Some(i);
        }
        i = i + 1;
    }
    None
}

/// Index of the first user with these credentials, from `i` on.
pub open spec fn login_from(users: Seq<UserView>, name: Seq<char>, pass: Seq<char>, i: int) -> Option<
    int,
>
    decreases users.len() - i,
{
    if i < 0 || i >= users.len() {
        None
    } else if users[i].name == name && users[i].pass == pass {
        Some(i)
    } else {
        login_from(users, name, pass, i + 1)
    }
}

/// The configured user a login names, if the name and password match one.
pub fn find_login(cfg: &Config, user: &str, pass: &str) -> (r: Option<usize>)
    ensures
        match r {
            Some(i) => login_from(cfg@.users, user@, pass@, 0) == Some(i as int) && i < cfg.users@.len(),
            None => login_from(cfg@.users, user@, pass@, 0) is None,
        },
        r is None <==> forall|j: int| 0 <= j < cfg@.users.len() ==> !(cfg@.users[j].name == user@
            && cfg@.users[j].pass == pass@),
        r matches Some(k) ==> cfg@.users[k as int].name == user@ && cfg@.users[k as int].pass == pass@
            && forall|j: int| 0 <= j < k ==> !(cfg@.users[j].name == user@ && cfg@.users[j].pass
            == pass@),
{
    proof {
        law_login_finds_first_match(cfg@.users, user@, pass@);
    }
    let name = user.to_owned();
    let pw = pass.to_owned();
    let mut i: usize = 0;
    while i < cfg.users.len()
        invariant
            0 <= i <= cfg.users@.len(),
            login_from(cfg@.users, user@, pass@, 0) == login_from(cfg@.users, user@, pass@, i as int),
            name@ == user@,
            pw@ == pass@,
        decreases cfg.users@.len() - i,
    {
        if cfg.users[i].name == name && cfg.users[i].pass == pw {
            proof {
                law_login_finds_first_match(cfg@.users, user@, pass@);
            }
            return Some(i);
        }
        i = i + 1;
    }
    None
}

impl CurrentUser {
    /// Compute effective identity from a (possibly missing) session token
    /// (see [`identity_of`]).
    pub fn from_token(cfg: &Config, sessions: &SessionStore, token: Option<&str>) -> (u: CurrentUser)
        ensures
            (opt_string_view(u.user), u.perms) == identity_of(cfg@, sessions@, opt_str_view(token)),
    {
        if let Some(t) = token {
            if let Some(name) = sessions.resolve(t) {
                if let Some(i) = find_user(&cfg.users, &name) {
                    return CurrentUser { user: Some(cfg.users[i].name.clone()), perms: cfg.users[i].perms };
                }
            }
        }
        CurrentUser { user: None, perms: cfg.guest }
    }
}

// ------------------------------------------------------------- cookies

pub open spec fn cookie_attributes() -> Seq<char> {
    "; Path=/; HttpOnly; SameSite=Lax"@
}

/// The `Set-Cookie` value that grants a session, or revokes it.
pub open spec fn session_cookie(token: Option<Seq<char>>) -> Seq<char> {
    match token {
        Some(t) => "flyo_sid="@ + t + cookie_attributes(),
        None => "flyo_sid="@ + cookie_attributes() + "; Max-Age=0"@,
    }
}

/// Build the `Set-Cookie` header value for granting / revoking the session.
pub fn build_session_cookie(token: Option<&str>) -> (s: String)
    ensures
        s@ == session_cookie(opt_str_view(token)),
{
    let mut v: Vec<char> = Vec::new();
    push_str(&mut v, "flyo_sid=");
    match token {
        Some(t) => {
            push_str(&mut v, t);
            push_str(&mut v, "; Path=/; HttpOnly; SameSite=Lax");
        },
        None => {
            push_str(&mut v, "; Path=/; HttpOnly; SameSite=Lax");
            push_str(&mut v, "; Max-Age=0");
        },
    }
    proof {
        assert(v@ =~= session_cookie(opt_str_view(token)));
    }
    string_of(v.as_slice())
}

/// The session token in the first `flyo_sid=` pair from piece `i` on.
pub open spec fn cookie_from(pieces: Seq<Seq<char>>, i: int) -> Option<Seq<char>>
    decreases pieces.len() - i,
{
    if i < 0 || i >= pieces.len() {
        None
    } else if has_prefix(trim(pieces[i]), "flyo_sid="@) {
        Some(trim(pieces[i]).skip(9))
    } else {
        cookie_from(pieces, i + 1)
    }
}

/// The session token in the first `Cookie` header value from `i` on that
/// holds one.
pub open spec fn cookie_in_values(values: Seq<Seq<char>>, i: int) -> Option<Seq<char>>
    decreases values.len() - i,
{
    if i < 0 || i >= values.len() {
        None
    } else {
        match cookie_from(split_on(values[i], ';'), 0) {
            Some(t) => Some(t),
            None => cookie_in_values(values, i + 1),
        }
    }
}

/// Pull `flyo_sid=...` from the `Cookie` header values (those that are
/// valid text), if present.
pub fn extract_session_cookie(values: &Vec<String>) -> (r: Option<String>)
    ensures
        opt_string_view(r) == cookie_in_values(values.deep_view(), 0),
{
    proof {
        reveal_strlit("flyo_sid=");
    }
    let mut i: usize = 0;
    while i < values.len()
        invariant
            0 <= i <= values@.len(),
            "flyo_sid="@.len() == 9,
            cookie_in_values(values.deep_view(), 0) == cookie_in_values(values.deep_view(), i as int),
        decreases values@.len() - i,
    {
        let text = chars_of(values[i].as_str());
        let pieces = split_chars(text.as_slice(), ';');
        let mut j: usize = 0;
        while j < pieces.len()
            invariant
                0 <= j <= pieces@.len(),
                i < values@.len(),
                "flyo_sid="@.len() == 9,
                cookie_in_values(values.deep_view(), 0) == cookie_in_values(
                    values.deep_view(),
                    i as int,
                ),
                pieces.deep_view() == split_on(values.deep_view()[i as int], ';'),
                cookie_from(pieces.deep_view(), 0) == cookie_from(pieces.deep_view(), j as int),
            decreases pieces@.len() - j,
        {
            proof {
                lemma_deep_view_index(pieces, j as int);
            }
            let pair = trim_chars(pieces[j].as_slice());
            if starts_with_str(pair.as_slice(), "flyo_sid=") {
                let rest = slice_to_vec(pair.as_slice(), 9, pair.len());
                proof {
                    assert(rest@ =~= pair@.skip(9));
                }
                return Some(string_of(rest.as_slice()));
            }
            j = j + 1;
        }
        i = i + 1;
    }
    None
}


/// A request without a known session token, or whose session names a user
/// no longer configured, is a guest with the guest permissions; one whose
/// session names a configured user gets that user's name and permissions.
pub proof fn law_identity_is_session_user_or_guest(
    cfg: ConfigView,
    sessions: Map<Seq<char>, Seq<char>>,
    token: Option<Seq<char>>,
)
    ensures
        ({
            let (user, perms) = identity_of(cfg, sessions, token);
            &&& user is None ==> perms == cfg.guest
            &&& user matches Some(n) ==> token matches Some(t) && sessions.dom().contains(t)
                && sessions[t] == n && exists|i: int|
                0 <= i < cfg.users.len() && cfg.users[i].name == n && cfg.users[i].perms == perms
        }),
{
    if let Some(t) = token {
        if sessions.dom().contains(t) {
            lemma_user_named_found(cfg.users, sessions[t], 0);
        }
    }
}

proof fn lemma_user_named_found(users: Seq<UserView>, name: Seq<char>, i: int)
    requires
        0 <= i,
    ensures
        user_named_from(users, name, i) matches Some(k) ==> i <= k < users.len() && users[k].name
            == name,
    decreases users.len() - i,
{
    if i < users.len() && users[i].name != name {
        lemma_user_named_found(users, name, i + 1);
    }
}

proof fn lemma_login_from(users: Seq<UserView>, name: Seq<char>, pass: Seq<char>, i: int)
    requires
        0 <= i <= users.len(),
    ensures
        login_from(users, name, pass, i) matches Some(k) ==> i <= k < users.len() && users[k].name
            == name && users[k].pass == pass && forall|j: int| i <= j < k ==> !(users[j].name == name
            && users[j].pass == pass),
        login_from(users, name, pass, i) is None ==> forall|j: int| i <= j < users.len() ==> !(
            users[j].name == name && users[j].pass == pass),
    decreases users.len() - i,
{
    if i < users.len() {
        lemma_login_from(users, name, pass, i + 1);
    }
}

/// A login succeeds exactly when some configured user has that name and
/// password, and then as the first such user.
pub proof fn law_login_finds_first_match(users: Seq<UserView>, name: Seq<char>, pass: Seq<char>)
    ensures
        login_from(users, name, pass, 0) is None <==> forall|j: int| 0 <= j < users.len() ==> !(
            users[j].name == name && users[j].pass == pass),
        login_from(users, name, pass, 0) matches Some(k) ==> 0 <= k < users.len() && users[k].name
            == name && users[k].pass == pass && forall|j: int| 0 <= j < k ==> !(users[j].name == name
            && users[j].pass == pass),
{
    lemma_login_from(users, name, pass, 0);
}

proof fn lemma_user_named_from(users: Seq<UserView>, name: Seq<char>, i: int)
    requires
        0 <= i <= users.len(),
    ensures
        user_named_from(users, name, i) matches Some(k) ==> i <= k < users.len() && users[k].name
            == name && forall|j: int| i <= j < k ==> users[j].name != name,
        user_named_from(users, name, i) is None ==> forall|j: int| i <= j < users.len() ==> users[j].name
            != name,
    decreases users.len() - i,
{
    if i < users.len() {
        lemma_user_named_from(users, name, i + 1);
    }
}

/// A session's user is found exactly when a configured user has that
/// name, and then as the first such user.
pub proof fn law_user_lookup_finds_first_match(users: Seq<UserView>, name: Seq<char>)
    ensures
        user_named_from(users, name, 0) is None <==> forall|j: int| 0 <= j < users.len() ==> users[j].name
            != name,
        user_named_from(users, name, 0) matches Some(k) ==> 0 <= k < users.len() && users[k].name == name
            && forall|j: int| 0 <= j < k ==> users[j].name != name,
{
    lemma_user_named_from(users, name, 0);
}

/// A granted session cookie carries the token under `flyo_sid` and is
/// scoped to the whole site, hidden from scripts and sent only on
/// same-site requests; the revoking cookie is empty and expires at once.
pub proof fn law_session_cookie_attributes(token: Seq<char>)
    ensures
        session_cookie(Some(token)) == "flyo_sid="@ + token + "; Path=/; HttpOnly; SameSite=Lax"@,
        session_cookie(None) == "flyo_sid=; Path=/; HttpOnly; SameSite=Lax; Max-Age=0"@,
{
    reveal_strlit("flyo_sid=");
    reveal_strlit("; Path=/; HttpOnly; SameSite=Lax");
    reveal_strlit("; Max-Age=0");
    reveal_strlit("flyo_sid=; Path=/; HttpOnly; SameSite=Lax; Max-Age=0");
    assert(session_cookie(None) =~= "flyo_sid=; Path=/; HttpOnly; SameSite=Lax; Max-Age=0"@);
}

/// Whether a cookie pair (trimmed) is a session pair `flyo_sid=<token>`.
pub open spec fn is_session_pair(piece: Seq<char>) -> bool {
    trim(piece).len() >= 9 && trim(piece).take(9) == "flyo_sid="@
}

proof fn lemma_cookie_from(pieces: Seq<Seq<char>>, i: int)
    requires
        0 <= i <= pieces.len(),
    ensures
        cookie_from(pieces, i) matches Some(t) ==> exists|j: int|
            i <= j < pieces.len() && #[trigger] is_session_pair(pieces[j]) && trim(pieces[j]) == "flyo_sid="@
                + t && forall|m: int| i <= m < j ==> !is_session_pair(#[trigger] pieces[m]),
        cookie_from(pieces, i) is None ==> forall|j: int| i <= j < pieces.len() ==> !is_session_pair(
            #[trigger] pieces[j],
        ),
    decreases pieces.len() - i,
{
    reveal_strlit("flyo_sid=");
    if i < pieces.len() {
        lemma_cookie_from(pieces, i + 1);
        if has_prefix(trim(pieces[i]), "flyo_sid="@) {
            let t = trim(pieces[i]).skip(9);
            assert(trim(pieces[i]) =~= "flyo_sid="@ + t);
            assert(is_session_pair(pieces[i]));
        } else {
            assert(!is_session_pair(pieces[i]));
        }
    }
}

proof fn lemma_cookie_in_values(values: Seq<Seq<char>>, i: int)
    requires
        0 <= i <= values.len(),
    ensures
        cookie_in_values(values, i) matches Some(t) ==> exists|v: int, j: int|
            i <= v < values.len() && 0 <= j < split_on(values[v], ';').len() && #[trigger] is_session_pair(
                split_on(values[v], ';')[j],
            ) && trim(split_on(values[v], ';')[j]) == "flyo_sid="@ + t,
        cookie_in_values(values, i) is None ==> forall|v: int, j: int|
            i <= v < values.len() && 0 <= j < split_on(values[v], ';').len() ==> !#[trigger] is_session_pair(
                split_on(values[v], ';')[j],
            ),
    decreases values.len() - i,
{
    if i < values.len() {
        lemma_cookie_in_values(values, i + 1);
        lemma_cookie_from(split_on(values[i], ';'), 0);
    }
}

/// The session token of a request is the value of a `flyo_sid=` pair of its
/// `Cookie` headers; there is none exactly when no pair is a session pair.
pub proof fn law_session_token_comes_from_its_pair(values: Seq<Seq<char>>)
    ensures
        cookie_in_values(values, 0) matches Some(t) ==> exists|v: int, j: int|
            0 <= v < values.len() && 0 <= j < split_on(values[v], ';').len() && #[trigger] is_session_pair(
                split_on(values[v], ';')[j],
            ) && trim(split_on(values[v], ';')[j]) == "flyo_sid="@ + t,
        cookie_in_values(values, 0) is None <==> forall|v: int, j: int|
            0 <= v < values.len() && 0 <= j < split_on(values[v], ';').len() ==> !#[trigger] is_session_pair(
                split_on(values[v], ';')[j],
            ),
{
    lemma_cookie_in_values(values, 0);
}

} // verus!

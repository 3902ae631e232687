//! `flyo-proxy.conf` parser.
//!
//! Directives (case-insensitive):
//!   Proxy.Listen      <addr:port>          (default 0.0.0.0:8443)
//!   Proxy.Upstream    http://host:port     (default http://127.0.0.1:9212)
//!   Proxy.Cert        <path>               (PEM-encoded chain)
//!   Proxy.Key         <path>               (PEM-encoded key)
//!   Proxy.SelfSigned                       (auto-generate dev cert at startup)
//!   Proxy.Allow       <ip-or-cidr>         (repeatable)
//!   Proxy.Block       <ip-or-cidr>         (repeatable)
//!   Proxy.RateLimit   <reqs>/<window>      (e.g. 100/min)
//!   Proxy.LogLevel    info|debug|warn|error
use vstd::prelude::*;

use crate::net::{
    host_network, ip_addr_parse, ipnet_parse, net_contains, opt_network_view, IpAddress,
    IpNetwork, NetworkView,
};
use crate::text::{
    ascii_lower, ascii_lowercase, chars_eq_str, chars_of, contains_char, dec_string,
    lemma_deep_view_index, lines_of, normalize_listen, normalized_listen, parse_u32,
    parse_unsigned, push_chars, push_decimal, push_str, slice_to_vec, split_lines, string_of,
    strings_of, tokenize, tokens_of, trim, trim_chars, all_digits, digits_value, is_digit,
    lead_from, trail_to, unsigned_digits,
};

verus! {

/// An allow or block rule as written, with the network it denotes.
#[derive(Clone, Debug)]
pub struct IpRule {
    pub raw: String,
    pub net: Option<IpNetwork>,
}

pub struct IpRuleView {
    pub raw: Seq<char>,
    pub net: Option<NetworkView>,
}

impl View for IpRule {
    type V = IpRuleView;

    open spec fn view(&self) -> IpRuleView {
        IpRuleView { raw: self.raw@, net: opt_network_view(self.net) }
    }
}

/// Whether a rule's network holds an address; a rule without a network
/// holds nothing.
pub open spec fn rule_matches(r: IpRuleView, a: IpAddress) -> bool {
    match r.net {
        Some(n) => net_contains(n, a),
        None => false,
    }
}

impl IpRule {
    pub fn matches(&self, addr: IpAddress) -> (r: bool)
        ensures
            r == rule_matches(self@, addr),
    {
        match &self.net {
            Some(n) => n.contains(addr),
            None => false,
        }
    }
}

/// A request budget per client address and fixed window.
#[derive(Clone, Copy, Debug, PartialEq, Eq, Structural)]
pub struct RateLimit {
    pub requests: u32,
    /// Window length in seconds.
    pub window: u64,
}

/// How the proxy terminates TLS.
#[derive(Clone, Debug)]
pub enum TlsMode {
    /// Plain HTTP, no TLS at all.
    Plain,
    /// A self-signed certificate generated at startup for these names.
    SelfSigned { dns_names: Vec<String> },
    /// PEM certificate chain and key read from these files.
    Files { cert: String, key: String },
}

pub enum TlsModeView {
    Plain,
    SelfSigned { dns_names: Seq<Seq<char>> },
    Files { cert: Seq<char>, key: Seq<char> },
}

impl View for TlsMode {
    type V = TlsModeView;

    open spec fn view(&self) -> TlsModeView {
        match self {
            TlsMode::Plain => TlsModeView::Plain,
            TlsMode::SelfSigned { dns_names } => TlsModeView::SelfSigned {
                dns_names: dns_names.deep_view(),
            },
            TlsMode::Files { cert, key } => TlsModeView::Files { cert: cert@, key: key@ },
        }
    }
}

/// The proxy's configuration.
#[derive(Clone, Debug)]
pub struct Config {
    pub listen: String,
    pub upstream: String,
    pub tls: TlsMode,
    pub allow: Vec<IpRule>,
    pub block: Vec<IpRule>,
    pub rate_limit: Option<RateLimit>,
    pub log_level: String,
}

pub struct ConfigView {
    pub listen: Seq<char>,
    pub upstream: Seq<char>,
    pub tls: TlsModeView,
    pub allow: Seq<IpRuleView>,
    pub block: Seq<IpRuleView>,
    pub rate_limit: Option<RateLimit>,
    pub log_level: Seq<char>,
}

pub open spec fn rules_view(v: Seq<IpRule>) -> Seq<IpRuleView> {
    Seq::new(v.len(), |i: int| v[i]@)
}

impl View for Config {
    type V = ConfigView;

    open spec fn view(&self) -> ConfigView {
        ConfigView {
            listen: self.listen@,
            upstream: self.upstream@,
            tls: self.tls@,
            allow: rules_view(self.allow@),
            block: rules_view(self.block@),
            rate_limit: self.rate_limit,
            log_level: self.log_level@,
        }
    }
}

/// Defaults: listen on `0.0.0.0:8443`, forward to `http://127.0.0.1:9212`,
/// plain HTTP, no rules, no rate limit, log level `info`.
pub open spec fn default_config() -> ConfigView {
    ConfigView {
        listen: "0.0.0.0:8443"@,
        upstream: "http://127.0.0.1:9212"@,
        tls: TlsModeView::Plain,
        allow: Seq::empty(),
        block: Seq::empty(),
        rate_limit: None,
        log_level: "info"@,
    }
}

impl Default for Config {
    fn default() -> (c: Config)
        ensures
            c@ == default_config(),
    {
        let c = Config {
            listen: string_of(chars_of("0.0.0.0:8443").as_slice()),
            upstream: string_of(chars_of("http://127.0.0.1:9212").as_slice()),
            tls: TlsMode::Plain,
            allow: Vec::new(),
            block: Vec::new(),
            rate_limit: None,
            log_level: string_of(chars_of("info").as_slice()),
        };
        proof {
            assert(c@.allow =~= Seq::<IpRuleView>::empty());
            assert(c@.block =~= Seq::<IpRuleView>::empty());
        }
        c
    }
}

/// Why a line was rejected; the texts are the offending tokens.
#[derive(Clone, Debug)]
pub enum ConfigErrorKind {
    ListenRequiresAddress,
    UpstreamRequiresUrl,
    InvalidCidr(String),
    InvalidIp(String),
    RateNotPerUnit(String),
    InvalidRequestCount(String),
    UnknownRateWindow(String),
}

pub enum ConfigErrorKindView {
    ListenRequiresAddress,
    UpstreamRequiresUrl,
    InvalidCidr(Seq<char>),
    InvalidIp(Seq<char>),
    RateNotPerUnit(Seq<char>),
    InvalidRequestCount(Seq<char>),
    UnknownRateWindow(Seq<char>),
}

impl View for ConfigErrorKind {
    type V = ConfigErrorKindView;

    open spec fn view(&self) -> ConfigErrorKindView {
        match self {
            ConfigErrorKind::ListenRequiresAddress => ConfigErrorKindView::ListenRequiresAddress,
            ConfigErrorKind::UpstreamRequiresUrl => ConfigErrorKindView::UpstreamRequiresUrl,
            ConfigErrorKind::InvalidCidr(s) => ConfigErrorKindView::InvalidCidr(s@),
            ConfigErrorKind::InvalidIp(s) => ConfigErrorKindView::InvalidIp(s@),
            ConfigErrorKind::RateNotPerUnit(s) => ConfigErrorKindView::RateNotPerUnit(s@),
            ConfigErrorKind::InvalidRequestCount(s) => ConfigErrorKindView::InvalidRequestCount(
                s@,
            ),
            ConfigErrorKind::UnknownRateWindow(s) => ConfigErrorKindView::UnknownRateWindow(s@),
        }
    }
}

/// A rejected line, with its 1-based number.
#[derive(Clone, Debug)]
pub struct ConfigError {
    pub line: usize,
    pub kind: ConfigErrorKind,
}

pub struct ConfigErrorView {
    pub line: nat,
    pub kind: ConfigErrorKindView,
}

impl View for ConfigError {
    type V = ConfigErrorView;

    open spec fn view(&self) -> ConfigErrorView {
        ConfigErrorView { line: self.line as nat, kind: self.kind@ }
    }
}

pub open spec fn quoted(s: Seq<char>) -> Seq<char> {
    "'"@ + s + "'"@
}

pub open spec fn error_text(k: ConfigErrorKindView) -> Seq<char> {
    match k {
        ConfigErrorKindView::ListenRequiresAddress => "Proxy.Listen requires an address"@,
        ConfigErrorKindView::UpstreamRequiresUrl => "Proxy.Upstream requires a URL"@,
        ConfigErrorKindView::InvalidCidr(s) => "invalid CIDR "@ + quoted(s),
        ConfigErrorKindView::InvalidIp(s) => "invalid IP address "@ + quoted(s),
        ConfigErrorKindView::RateNotPerUnit(s) => "rate limit must be N/unit, got "@ + quoted(s),
        ConfigErrorKindView::InvalidRequestCount(s) => "invalid request count "@ + quoted(s),
        ConfigErrorKindView::UnknownRateWindow(s) => "unknown rate window "@ + quoted(s),
    }
}

fn push_quoted(v: &mut Vec<char>, s: &String)
    ensures
        final(v)@ == old(v)@ + quoted(s@),
{
    push_str(v, "'");
    push_str(v, s.as_str());
    push_str(v, "'");
    proof {
        assert(v@ =~= old(v)@ + quoted(s@));
    }
}

impl ConfigError {
    /// The error as a sentence: `line N: ...`.
    pub fn message(&self) -> (m: String)
        ensures
            m@ == "line "@ + dec_string(self.line as nat) + ": "@ + error_text(self.kind@),
    {
        let mut v: Vec<char> = Vec::new();
        push_str(&mut v, "line ");
        push_decimal(&mut v, self.line as u64);
        push_str(&mut v, ": ");
        let ghost head = v@;
        match &self.kind {
            ConfigErrorKind::ListenRequiresAddress => push_str(
                &mut v,
                "Proxy.Listen requires an address",
            ),
            ConfigErrorKind::UpstreamRequiresUrl => push_str(&mut v, "Proxy.Upstream requires a URL"),
            ConfigErrorKind::InvalidCidr(s) => {
                push_str(&mut v, "invalid CIDR ");
                push_quoted(&mut v, s);
            },
            ConfigErrorKind::InvalidIp(s) => {
                push_str(&mut v, "invalid IP address ");
                push_quoted(&mut v, s);
            },
            ConfigErrorKind::RateNotPerUnit(s) => {
                push_str(&mut v, "rate limit must be N/unit, got ");
                push_quoted(&mut v, s);
            },
            ConfigErrorKind::InvalidRequestCount(s) => {
                push_str(&mut v, "invalid request count ");
                push_quoted(&mut v, s);
            },
            ConfigErrorKind::UnknownRateWindow(s) => {
                push_str(&mut v, "unknown rate window ");
                push_quoted(&mut v, s);
            },
        }
        proof {
            assert(v@ =~= head + error_text(self.kind@));
        }
        string_of(v.as_slice())
    }
}

// ------------------------------------------------------------------- rules

/// The rule a token denotes: CIDR notation when it holds a `/`, otherwise a
/// single address.
pub open spec fn rule_of(raw: Seq<char>, lineno: nat) -> Result<IpRuleView, ConfigErrorView> {
    if raw.contains('/') {
        match ipnet_parse(raw) {
            Some(n) => Ok(IpRuleView { raw: raw, net: Some(n) }),
            None => Err(
                ConfigErrorView { line: lineno, kind: ConfigErrorKindView::InvalidCidr(raw) },
            ),
        }
    } else {
        match ip_addr_parse(raw) {
            Some(a) => Ok(IpRuleView { raw: raw, net: Some(host_network(a)) }),
            None => Err(ConfigErrorView { line: lineno, kind: ConfigErrorKindView::InvalidIp(raw) }),
        }
    }
}

/// Parse an allow or block rule (see [`rule_of`]).
pub fn parse_rule(raw: &[char], lineno: usize) -> (r: Result<IpRule, ConfigError>)
    ensures
        match r {
            Ok(rule) => rule_of(raw@, lineno as nat) == Ok::<IpRuleView, ConfigErrorView>(rule@),
            Err(e) => rule_of(raw@, lineno as nat) == Err::<IpRuleView, ConfigErrorView>(e@),
        },
{
    let text = string_of(raw);
    if contains_char(raw, '/') {
        match IpNetwork::parse(text.as_str()) {
            Some(n) => Ok(IpRule { raw: text, net: Some(n) }),
            None => Err(ConfigError { line: lineno, kind: ConfigErrorKind::InvalidCidr(text) }),
        }
    } else {
        match IpAddress::parse(text.as_str()) {
            Some(a) => Ok(IpRule { raw: text, net: Some(IpNetwork::from_addr(a)) }),
            None => Err(ConfigError { line: lineno, kind: ConfigErrorKind::InvalidIp(text) }),
        }
    }
}

// ------------------------------------------------------------- rate limits

/// Index of the first `c` at or after `i`, if any.
pub open spec fn find_from(s: Seq<char>, c: char, i: int) -> Option<int>
    decreases s.len() - i,
{
    if i < 0 || i >= s.len() {
        None
    } else if s[i] == c {
        Some(i)
    } else {
        find_from(s, c, i + 1)
    }
}

/// Window length in seconds named by a (trimmed, lowercased) unit.
pub open spec fn window_secs(unit: Seq<char>) -> Option<u64> {
    if unit == "s"@ || unit == "sec"@ || unit == "second"@ {
        Some(1)
    } else if unit == "m"@ || unit == "min"@ || unit == "minute"@ {
        Some(60)
    } else if unit == "h"@ || unit == "hour"@ {
        Some(3600)
    } else {
        None
    }
}

/// `N/unit`: a request count and a window unit, split at the first `/`.
pub open spec fn rate_of(raw: Seq<char>, lineno: nat) -> Result<RateLimit, ConfigErrorView> {
    match find_from(raw, '/', 0) {
        None => Err(ConfigErrorView { line: lineno, kind: ConfigErrorKindView::RateNotPerUnit(raw) }),
        Some(i) => {
            let n = raw.take(i);
            let unit = ascii_lower(trim(raw.skip(i + 1)));
            match parse_unsigned(trim(n), u32::MAX as nat) {
                None => Err(
                    ConfigErrorView {
                        line: lineno,
                        kind: ConfigErrorKindView::InvalidRequestCount(n),
                    },
                ),
                Some(count) => match window_secs(unit) {
                    Some(w) => Ok(RateLimit { requests: count as u32, window: w }),
                    None => Err(
                        ConfigErrorView {
                            line: lineno,
                            kind: ConfigErrorKindView::UnknownRateWindow(unit),
                        },
                    ),
                },
            }
        },
    }
}

fn find_char(s: &[char], c: char) -> (r: Option<usize>)
    ensures
        match r {
            Some(i) => find_from(s@, c, 0) == Some(i as int) && i < s@.len(),
            None => find_from(s@, c, 0) is None,
        },
{
    let mut i: usize = 0;
    while i < s.len()
        invariant
            0 <= i <= s@.len(),
            find_from(s@, c, 0) == find_from(s@, c, i as int),
        decreases s@.len() - i,
    {
        if s[i] == c {
            return Some(i);
        }
        i = i + 1;
    }
    None
}

/// Parse a rate limit (see [`rate_of`]).
pub fn parse_rate(raw: &[char], lineno: usize) -> (r: Result<RateLimit, ConfigError>)
    ensures
        match r {
            Ok(rate) => rate_of(raw@, lineno as nat) == Ok::<RateLimit, ConfigErrorView>(rate),
            Err(e) => rate_of(raw@, lineno as nat) == Err::<RateLimit, ConfigErrorView>(e@),
        },
{
    let i = match find_char(raw, '/') {
        Some(i) => i,
        None => {
            return Err(
                ConfigError { line: lineno, kind: ConfigErrorKind::RateNotPerUnit(string_of(raw)) },
            );
        },
    };
    let len = raw.len();
    assert(i < len);
    let n = slice_to_vec(raw, 0, i);
    let rest = slice_to_vec(raw, i + 1, len);
    proof {
        assert(n@ =~= raw@.take(i as int));
        assert(rest@ =~= raw@.skip(i + 1));
    }
    let unit_trimmed = trim_chars(rest.as_slice());
    let unit = ascii_lowercase(unit_trimmed.as_slice());
    let count_text = trim_chars(n.as_slice());
    let requests = match parse_u32(count_text.as_slice()) {
        Some(v) => v,
        None => {
            return Err(
                ConfigError {
                    line: lineno,
                    kind: ConfigErrorKind::InvalidRequestCount(string_of(n.as_slice())),
                },
            );
        },
    };
    let u = unit.as_slice();
    let window: u64 = if chars_eq_str(u, "s") || chars_eq_str(u, "sec") || chars_eq_str(u, "second") {
        1
    } else if chars_eq_str(u, "m") || chars_eq_str(u, "min") || chars_eq_str(u, "minute") {
        60
    } else if chars_eq_str(u, "h") || chars_eq_str(u, "hour") {
        3600
    } else {
        return Err(
            ConfigError { line: lineno, kind: ConfigErrorKind::UnknownRateWindow(string_of(u)) },
        );
    };
    Ok(RateLimit { requests, window })
}


// ------------------------------------------------------------------ parse

/// Parser state: the configuration so far, and the TLS directives seen,
/// which are resolved once every line has been read.
pub struct ParseState {
    pub cfg: ConfigView,
    pub cert: Option<Seq<char>>,
    pub key: Option<Seq<char>>,
    pub self_signed: Option<Seq<Seq<char>>>,
}

/// What one line does to the parse.
pub enum LineOutcome {
    Next(ParseState),
    Rejected(ConfigErrorView),
    /// The directive needs a value and the line has none; the line is read
    /// past its end.
    MissingArgument,
}

pub open spec fn initial_state() -> ParseState {
    ParseState { cfg: default_config(), cert: None, key: None, self_signed: None }
}

/// Apply one raw line (number `lineno`).
#[verifier::opaque]
pub open spec fn apply_line(st: ParseState, raw: Seq<char>, lineno: nat) -> LineOutcome {
    let line = trim(raw);
    let toks = tokens_of(line);
    if line.len() == 0 || line[0] == '#' || toks.len() == 0 {
        LineOutcome::Next(st)
    } else {
        let key = ascii_lower(toks[0]);
        let args = toks.drop_first();
        let cfg = st.cfg;
        if key == "proxy.listen"@ {
            if args.len() == 0 {
                LineOutcome::Rejected(
                    ConfigErrorView { line: lineno, kind: ConfigErrorKindView::ListenRequiresAddress },
                )
            } else {
                LineOutcome::Next(
                    ParseState { cfg: ConfigView { listen: normalized_listen(args[0]), ..cfg }, ..st },
                )
            }
        } else if key == "proxy.upstream"@ {
            if args.len() == 0 {
                LineOutcome::Rejected(
                    ConfigErrorView { line: lineno, kind: ConfigErrorKindView::UpstreamRequiresUrl },
                )
            } else {
                LineOutcome::Next(ParseState { cfg: ConfigView { upstream: args[0], ..cfg }, ..st })
            }
        } else if key == "proxy.cert"@ {
            if args.len() == 0 {
                LineOutcome::MissingArgument
            } else {
                LineOutcome::Next(ParseState { cert: Some(args[0]), ..st })
            }
        } else if key == "proxy.key"@ {
            if args.len() == 0 {
                LineOutcome::MissingArgument
            } else {
                LineOutcome::Next(ParseState { key: Some(args[0]), ..st })
            }
        } else if key == "proxy.selfsigned"@ {
            LineOutcome::Next(
                ParseState {
                    self_signed: Some(
                        if args.len() == 0 {
                            seq!["localhost"@]
                        } else {
                            args
                        },
                    ),
                    ..st
                },
            )
        } else if key == "proxy.allow"@ {
            if args.len() == 0 {
                LineOutcome::MissingArgument
            } else {
                match rule_of(args[0], lineno) {
                    Ok(r) => LineOutcome::Next(
                        ParseState { cfg: ConfigView { allow: cfg.allow.push(r), ..cfg }, ..st },
                    ),
                    Err(e) => LineOutcome::Rejected(e),
                }
            }
        } else if key == "proxy.block"@ {
            if args.len() == 0 {
                LineOutcome::MissingArgument
            } else {
                match rule_of(args[0], lineno) {
                    Ok(r) => LineOutcome::Next(
                        ParseState { cfg: ConfigView { block: cfg.block.push(r), ..cfg }, ..st },
                    ),
                    Err(e) => LineOutcome::Rejected(e),
                }
            }
        } else if key == "proxy.ratelimit"@ {
            if args.len() == 0 {
                LineOutcome::MissingArgument
            } else {
                match rate_of(args[0], lineno) {
                    Ok(r) => LineOutcome::Next(
                        ParseState { cfg: ConfigView { rate_limit: Some(r), ..cfg }, ..st },
                    ),
                    Err(e) => LineOutcome::Rejected(e),
                }
            }
        } else if key == "proxy.loglevel"@ {
            if args.len() == 0 {
                LineOutcome::MissingArgument
            } else {
                LineOutcome::Next(
                    ParseState { cfg: ConfigView { log_level: ascii_lower(args[0]), ..cfg }, ..st },
                )
            }
        } else {
            LineOutcome::Next(st)
        }
    }
}

/// The outcome after the first `k` lines.
pub open spec fn parse_prefix(lines: Seq<Seq<char>>, k: int) -> (LineOutcome, nat)
    decreases k,
{
    if k <= 0 {
        (LineOutcome::Next(initial_state()), 0)
    } else {
        match parse_prefix(lines, k - 1) {
            (LineOutcome::Next(st), _) => (apply_line(st, lines[k - 1], k as nat), k as nat),
            other => other,
        }
    }
}

/// The TLS mode the directives select: certificate files when both a
/// certificate and a key are given, else a self-signed certificate when
/// requested, else plain HTTP.
pub open spec fn resolve_tls(st: ParseState) -> TlsModeView {
    match (st.cert, st.key, st.self_signed) {
        (Some(c), Some(k), _) => TlsModeView::Files { cert: c, key: k },
        (_, _, Some(names)) => TlsModeView::SelfSigned { dns_names: names },
        _ => TlsModeView::Plain,
    }
}

/// What parsing a whole text gives.
pub enum ParseOutcome {
    Parsed(ConfigView),
    Rejected(ConfigErrorView),
    /// The line with this number lacks the value its directive reads.
    MissingArgument(nat),
}

pub open spec fn parse_outcome(text: Seq<char>) -> ParseOutcome {
    let lines = lines_of(text);
    match parse_prefix(lines, lines.len() as int) {
        (LineOutcome::Next(st), _) => ParseOutcome::Parsed(
            ConfigView { tls: resolve_tls(st), ..st.cfg },
        ),
        (LineOutcome::Rejected(e), _) => ParseOutcome::Rejected(e),
        (LineOutcome::MissingArgument, line) => ParseOutcome::MissingArgument(line),
    }
}

/// The parser's mutable state.
struct Parser {
    cfg: Config,
    cert: Option<String>,
    key: Option<String>,
    self_signed: Option<Vec<String>>,
}

enum Step {
    Next,
    Rejected(ConfigError),
    MissingArgument,
}

impl Parser {
    spec fn state(&self) -> ParseState {
        ParseState {
            cfg: self.cfg@,
            cert: opt_view(self.cert),
            key: opt_view(self.key),
            self_signed: match self.self_signed {
                Some(v) => Some(v.deep_view()),
                None => None,
            },
        }
    }

    fn apply_line(&mut self, raw: &[char], lineno: usize) -> (r: Step)
        ensures
            match r {
                Step::Next => apply_line(old(self).state(), raw@, lineno as nat)
                    == LineOutcome::Next(final(self).state()),
                Step::Rejected(e) => apply_line(old(self).state(), raw@, lineno as nat)
                    == LineOutcome::Rejected(e@),
                Step::MissingArgument => apply_line(old(self).state(), raw@, lineno as nat)
                    is MissingArgument,
            },
    {
        proof {
            reveal(apply_line);
        }
        let line = trim_chars(raw);
        if line.len() == 0 || line[0] == '#' {
            return Step::Next;
        }
        let toks = tokenize(line.as_slice());
        if toks.len() == 0 {
            return Step::Next;
        }
        proof {
            lemma_deep_view_index(toks, 0);
            if toks@.len() > 1 {
                lemma_deep_view_index(toks, 1);
            }
        }
        let key = ascii_lowercase(toks[0].as_slice());
        let k = key.as_slice();
        let nargs = toks.len() - 1;
        if chars_eq_str(k, "proxy.listen") {
            if nargs == 0 {
                return Step::Rejected(
                    ConfigError { line: lineno, kind: ConfigErrorKind::ListenRequiresAddress },
                );
            }
            let l = normalize_listen(toks[1].as_slice());
            self.cfg.listen = string_of(l.as_slice());
        } else if chars_eq_str(k, "proxy.upstream") {
            if nargs == 0 {
                return Step::Rejected(
                    ConfigError { line: lineno, kind: ConfigErrorKind::UpstreamRequiresUrl },
                );
            }
            self.cfg.upstream = string_of(toks[1].as_slice());
        } else if chars_eq_str(k, "proxy.cert") {
            if nargs == 0 {
                return Step::MissingArgument;
            }
            self.cert = Some(string_of(toks[1].as_slice()));
        } else if chars_eq_str(k, "proxy.key") {
            if nargs == 0 {
                return Step::MissingArgument;
            }
            self.key = Some(string_of(toks[1].as_slice()));
        } else if chars_eq_str(k, "proxy.selfsigned") {
            if nargs == 0 {
                let mut names: Vec<String> = Vec::new();
                crate::text::push_string(&mut names, string_of(chars_of("localhost").as_slice()));
                proof {
                    assert(names.deep_view() =~= seq!["localhost"@]);
                }
                self.self_signed = Some(names);
            } else {
                let names = strings_of(toks.as_slice(), 1);
                proof {
                    assert forall|i: int| 0 <= i < toks@.len() - 1 implies #[trigger] toks.deep_view().drop_first()[i]
                        == toks@[i + 1]@ by {
                        lemma_deep_view_index(toks, i + 1);
                    }
                    assert(names.deep_view() =~= toks.deep_view().drop_first());
                }
                self.self_signed = Some(names);
            }
        } else if chars_eq_str(k, "proxy.allow") || chars_eq_str(k, "proxy.block") {
            if nargs == 0 {
                return Step::MissingArgument;
            }
            let is_allow = chars_eq_str(k, "proxy.allow");
            match parse_rule(toks[1].as_slice(), lineno) {
                Ok(rule) => {
                    let ghost rv = rule@;
                    if is_allow {
                        let ghost before = self.cfg.allow@;
                        self.cfg.allow.push(rule);
                        proof {
                            assert(rules_view(self.cfg.allow@) =~= rules_view(before).push(rv));
                        }
                    } else {
                        let ghost before = self.cfg.block@;
                        self.cfg.block.push(rule);
                        proof {
                            assert(rules_view(self.cfg.block@) =~= rules_view(before).push(rv));
                        }
                    }
                },
                Err(e) => {
                    return Step::Rejected(e);
                },
            }
        } else if chars_eq_str(k, "proxy.ratelimit") {
            if nargs == 0 {
                return Step::MissingArgument;
            }
            match parse_rate(toks[1].as_slice(), lineno) {
                Ok(rate) => {
                    self.cfg.rate_limit = Some(rate);
                },
                Err(e) => {
                    return Step::Rejected(e);
                },
            }
        } else if chars_eq_str(k, "proxy.loglevel") {
            if nargs == 0 {
                return Step::MissingArgument;
            }
            let lvl = ascii_lowercase(toks[1].as_slice());
            self.cfg.log_level = string_of(lvl.as_slice());
        }
        Step::Next
    }
}

pub open spec fn opt_view(o: Option<String>) -> Option<Seq<char>> {
    match o {
        Some(s) => Some(s@),
        None => None,
    }
}

proof fn lemma_parse_prefix_stops(lines: Seq<Seq<char>>, k: int, n: int)
    requires
        0 <= k <= n,
        !(parse_prefix(lines, k).0 is Next),
    ensures
        parse_prefix(lines, n) == parse_prefix(lines, k),
    decreases n - k,
{
    if k < n {
        lemma_parse_prefix_stops(lines, k + 1, n);
    }
}

/// The exec counterpart of [`ParseOutcome`].
pub enum ParseResult {
    Parsed(Config),
    Rejected(ConfigError),
    MissingArgument(usize),
}

impl Config {
    /// Read a whole text, telling apart accepted texts, rejected lines and
    /// lines that lack the value their directive reads.
    pub fn parse_outcome(text: &str) -> (r: ParseResult)
        ensures
            match r {
                ParseResult::Parsed(c) => parse_outcome(text@) == ParseOutcome::Parsed(c@),
                ParseResult::Rejected(e) => parse_outcome(text@) == ParseOutcome::Rejected(e@),
                ParseResult::MissingArgument(l) => parse_outcome(text@)
                    == ParseOutcome::MissingArgument(l as nat),
            },
    {
        let chars = chars_of(text);
        let lines = split_lines(chars.as_slice());
        let mut p = Parser { cfg: Config::default(), cert: None, key: None, self_signed: None };
        let mut k: usize = 0;
        while k < lines.len()
            invariant
                0 <= k <= lines@.len(),
                lines.deep_view() == lines_of(text@),
                parse_prefix(lines.deep_view(), k as int).0 == LineOutcome::Next(p.state()),
            decreases lines@.len() - k,
        {
            proof {
                lemma_deep_view_index(lines, k as int);
            }
            match p.apply_line(lines[k].as_slice(), k + 1) {
                Step::Next => {},
                Step::Rejected(e) => {
                    proof {
                        lemma_parse_prefix_stops(lines.deep_view(), k + 1, lines@.len() as int);
                    }
                    return ParseResult::Rejected(e);
                },
                Step::MissingArgument => {
                    proof {
                        lemma_parse_prefix_stops(lines.deep_view(), k + 1, lines@.len() as int);
                    }
                    return ParseResult::MissingArgument(k + 1);
                },
            }
            k = k + 1;
        }
        let ghost st = p.state();
        let Parser { cfg, cert, key, self_signed } = p;
        let mut cfg = cfg;
        cfg.tls = match (cert, key, self_signed) {
            (Some(c), Some(k), _) => TlsMode::Files { cert: c, key: k },
            (_, _, Some(names)) => TlsMode::SelfSigned { dns_names: names },
            _ => TlsMode::Plain,
        };
        ParseResult::Parsed(cfg)
    }

    /// Parse a `flyo-proxy.conf` text. Every directive that reads a value
    /// other than `Proxy.Listen` and `Proxy.Upstream` must be given one.
    pub fn parse(text: &str) -> (r: Result<Config, ConfigError>)
        requires
            !(parse_outcome(text@) is MissingArgument),
        ensures
            match r {
                Ok(c) => parse_outcome(text@) == ParseOutcome::Parsed(c@),
                Err(e) => parse_outcome(text@) == ParseOutcome::Rejected(e@),
            },
    {
        match Config::parse_outcome(text) {
            ParseResult::Parsed(c) => Ok(c),
            ParseResult::Rejected(e) => Err(e),
            ParseResult::MissingArgument(_) => {
                proof {
                    assert(false);
                }
                Err(ConfigError { line: 0, kind: ConfigErrorKind::ListenRequiresAddress })
            },
        }
    }
}


/// Certificate files take precedence over a self-signed certificate, in
/// whatever order the directives came.
pub proof fn law_cert_files_take_precedence(st: ParseState, cert: Seq<char>, key: Seq<char>)
    requires
        st.cert == Some(cert),
        st.key == Some(key),
    ensures
        resolve_tls(st) == (TlsModeView::Files { cert: cert, key: key }),
{
}

/// Without both certificate and key, a self-signed request selects a
/// self-signed certificate, and no TLS directive selects plain HTTP.
pub proof fn law_tls_fallbacks(st: ParseState)
    requires
        st.cert is None || st.key is None,
    ensures
        st.self_signed matches Some(n) ==> resolve_tls(st) == (TlsModeView::SelfSigned { dns_names: n }),
        st.self_signed is None ==> resolve_tls(st) == TlsModeView::Plain,
{
}

proof fn lemma_find_after_prefix(s: Seq<char>, c: char, i: int, n: int)
    requires
        0 <= i <= n < s.len(),
        s[n] == c,
        forall|k: int| i <= k < n ==> s[k] != c,
    ensures
        find_from(s, c, i) == Some(n),
    decreases n - i,
{
    if i < n {
        lemma_find_after_prefix(s, c, i + 1, n);
    }
}

/// `N/unit` reads `N` (decimal digits, at most `u32::MAX`) as the request
/// count and the unit, trimmed and in any ASCII case, as the window:
/// `s`/`sec`/`second` one second, `m`/`min`/`minute` a minute, `h`/`hour`
/// an hour.
pub proof fn law_rate_syntax(d: Seq<char>, unit: Seq<char>, lineno: nat)
    requires
        d.len() > 0,
        all_digits(d),
        digits_value(d) <= u32::MAX,
        window_secs(ascii_lower(trim(unit))) is Some,
    ensures
        rate_of(d + seq!['/'] + unit, lineno) == Ok::<RateLimit, ConfigErrorView>(
            RateLimit {
                requests: digits_value(d) as u32,
                window: window_secs(ascii_lower(trim(unit)))->0,
            },
        ),
{
    let raw = d + seq!['/'] + unit;
    assert forall|k: int| 0 <= k < d.len() implies raw[k] != '/' by {
        assert(raw[k] == d[k]);
        assert(is_digit(d[k]));
    }
    lemma_find_after_prefix(raw, '/', 0, d.len() as int);
    assert(raw.take(d.len() as int) =~= d);
    assert(raw.skip(d.len() as int + 1) =~= unit);
    assert(is_digit(d[0]));
    assert(lead_from(d, 0) == 0);
    assert(is_digit(d[d.len() - 1]));
    assert(trail_to(d, 0, d.len() as int) == d.len());
    assert(d.subrange(0, d.len() as int) =~= d);
    assert(trim(d) == d);
    assert(unsigned_digits(d) == d);
}

/// The tokens of a raw line.
pub open spec fn line_tokens(raw: Seq<char>) -> Seq<Seq<char>> {
    tokens_of(trim(raw))
}

/// Whether a raw line is a `key` directive (its first token, in any ASCII
/// case, is `key`).
pub open spec fn is_directive(raw: Seq<char>, key: Seq<char>) -> bool {
    let line = trim(raw);
    let toks = tokens_of(line);
    !(line.len() == 0 || line[0] == '#' || toks.len() == 0) && ascii_lower(toks[0]) == key
}

/// Index of the last of the first `k` lines that is a `key` directive.
pub open spec fn last_directive(lines: Seq<Seq<char>>, k: int, key: Seq<char>) -> Option<int>
    decreases k,
{
    if k <= 0 {
        None
    } else if is_directive(lines[k - 1], key) {
        Some(k - 1)
    } else {
        last_directive(lines, k - 1, key)
    }
}

/// The rules the `key` lines (`proxy.allow` or `proxy.block`) among the
/// first `k` give, one per line, in line order.
pub open spec fn rules_of_lines(lines: Seq<Seq<char>>, k: int, key: Seq<char>) -> Seq<IpRuleView>
    decreases k,
{
    if k <= 0 {
        Seq::empty()
    } else {
        let rest = rules_of_lines(lines, k - 1, key);
        let t = line_tokens(lines[k - 1]);
        if is_directive(lines[k - 1], key) && t.len() >= 2 {
            match rule_of(t[1], k as nat) {
                Ok(r) => rest.push(r),
                Err(_) => rest,
            }
        } else {
            rest
        }
    }
}

/// The number of `key` lines among the first `k`.
pub open spec fn count_directives(lines: Seq<Seq<char>>, k: int, key: Seq<char>) -> nat
    decreases k,
{
    if k <= 0 {
        0
    } else {
        count_directives(lines, k - 1, key) + if is_directive(lines[k - 1], key) {
            1nat
        } else {
            0nat
        }
    }
}

/// What the first `k` lines say: every `Proxy.Allow` / `Proxy.Block` line
/// adds its rule, and listen address, upstream, log level and rate limit
/// are those of the last line naming them (the defaults without one).
pub open spec fn lines_describe(lines: Seq<Seq<char>>, k: int, c: ConfigView) -> bool {
    &&& c.allow == rules_of_lines(lines, k, "proxy.allow"@)
    &&& c.block == rules_of_lines(lines, k, "proxy.block"@)
    &&& c.allow.len() == count_directives(lines, k, "proxy.allow"@)
    &&& c.block.len() == count_directives(lines, k, "proxy.block"@)
    &&& c.listen == match last_directive(lines, k, "proxy.listen"@) {
        Some(j) => normalized_listen(line_tokens(lines[j])[1]),
        None => default_config().listen,
    }
    &&& c.upstream == match last_directive(lines, k, "proxy.upstream"@) {
        Some(j) => line_tokens(lines[j])[1],
        None => default_config().upstream,
    }
    &&& c.log_level == match last_directive(lines, k, "proxy.loglevel"@) {
        Some(j) => ascii_lower(line_tokens(lines[j])[1]),
        None => default_config().log_level,
    }
    &&& c.rate_limit == match last_directive(lines, k, "proxy.ratelimit"@) {
        Some(j) => match rate_of(line_tokens(lines[j])[1], (j + 1) as nat) {
            Ok(r) => Some(r),
            Err(_) => None,
        },
        None => None,
    }
}

proof fn lemma_prefix_describes(lines: Seq<Seq<char>>, k: int)
    requires
        0 <= k <= lines.len(),
    ensures
        parse_prefix(lines, k).0 matches LineOutcome::Next(st) ==> lines_describe(lines, k, st.cfg),
    decreases k,
{
    reveal(apply_line);
    reveal_strlit("proxy.listen");
    reveal_strlit("proxy.upstream");
    reveal_strlit("proxy.cert");
    reveal_strlit("proxy.key");
    reveal_strlit("proxy.selfsigned");
    reveal_strlit("proxy.allow");
    reveal_strlit("proxy.block");
    reveal_strlit("proxy.ratelimit");
    reveal_strlit("proxy.loglevel");
    assert("proxy.listen"@.len() != "proxy.upstream"@.len());
    assert("proxy.listen"@.len() != "proxy.cert"@.len());
    assert("proxy.listen"@.len() != "proxy.key"@.len());
    assert("proxy.listen"@.len() != "proxy.selfsigned"@.len());
    assert("proxy.listen"@.len() != "proxy.allow"@.len());
    assert("proxy.listen"@.len() != "proxy.block"@.len());
    assert("proxy.listen"@.len() != "proxy.ratelimit"@.len());
    assert("proxy.listen"@.len() != "proxy.loglevel"@.len());
    assert("proxy.upstream"@.len() != "proxy.cert"@.len());
    assert("proxy.upstream"@.len() != "proxy.key"@.len());
    assert("proxy.upstream"@.len() != "proxy.selfsigned"@.len());
    assert("proxy.upstream"@.len() != "proxy.allow"@.len());
    assert("proxy.upstream"@.len() != "proxy.block"@.len());
    assert("proxy.upstream"@.len() != "proxy.ratelimit"@.len());
    assert("proxy.upstream"@[6] != "proxy.loglevel"@[6]);
    assert("proxy.cert"@.len() != "proxy.key"@.len());
    assert("proxy.cert"@.len() != "proxy.selfsigned"@.len());
    assert("proxy.cert"@.len() != "proxy.allow"@.len());
    assert("proxy.cert"@.len() != "proxy.block"@.len());
    assert("proxy.cert"@.len() != "proxy.ratelimit"@.len());
    assert("proxy.cert"@.len() != "proxy.loglevel"@.len());
    assert("proxy.key"@.len() != "proxy.selfsigned"@.len());
    assert("proxy.key"@.len() != "proxy.allow"@.len());
    assert("proxy.key"@.len() != "proxy.block"@.len());
    assert("proxy.key"@.len() != "proxy.ratelimit"@.len());
    assert("proxy.key"@.len() != "proxy.loglevel"@.len());
    assert("proxy.selfsigned"@.len() != "proxy.allow"@.len());
    assert("proxy.selfsigned"@.len() != "proxy.block"@.len());
    assert("proxy.selfsigned"@.len() != "proxy.ratelimit"@.len());
    assert("proxy.selfsigned"@.len() != "proxy.loglevel"@.len());
    assert("proxy.allow"@[6] != "proxy.block"@[6]);
    assert("proxy.allow"@.len() != "proxy.ratelimit"@.len());
    assert("proxy.allow"@.len() != "proxy.loglevel"@.len());
    assert("proxy.block"@.len() != "proxy.ratelimit"@.len());
    assert("proxy.block"@.len() != "proxy.loglevel"@.len());
    assert("proxy.ratelimit"@.len() != "proxy.loglevel"@.len());
    if k > 0 {
        lemma_prefix_describes(lines, k - 1);
        let raw = lines[k - 1];
        if let LineOutcome::Next(st0) = parse_prefix(lines, k - 1).0 {
            if let LineOutcome::Next(st) = apply_line(st0, raw, k as nat) {
                let c0 = st0.cfg;
                let c = st.cfg;
                let line = trim(raw);
                let toks = tokens_of(line);
                assert(toks == line_tokens(raw));
                if line.len() == 0 || line[0] == '#' || toks.len() == 0 {
                    assert(st == st0);
                } else {
                    let key = ascii_lower(toks[0]);
                    if key == "proxy.allow"@ {
                        assert(toks.len() >= 2);
                        assert(c.block == c0.block && c.listen == c0.listen && c.upstream == c0.upstream
                            && c.log_level == c0.log_level && c.rate_limit == c0.rate_limit);
                    } else if key == "proxy.block"@ {
                        assert(toks.len() >= 2);
                        assert(c.allow == c0.allow && c.listen == c0.listen && c.upstream == c0.upstream
                            && c.log_level == c0.log_level && c.rate_limit == c0.rate_limit);
                    } else if key == "proxy.listen"@ {
                        assert(c.allow == c0.allow && c.block == c0.block && c.upstream == c0.upstream
                            && c.log_level == c0.log_level && c.rate_limit == c0.rate_limit);
                    } else if key == "proxy.upstream"@ {
                        assert(c.allow == c0.allow && c.block == c0.block && c.listen == c0.listen
                            && c.log_level == c0.log_level && c.rate_limit == c0.rate_limit);
                    } else if key == "proxy.loglevel"@ {
                        assert(c.allow == c0.allow && c.block == c0.block && c.listen == c0.listen
                            && c.upstream == c0.upstream && c.rate_limit == c0.rate_limit);
                    } else if key == "proxy.ratelimit"@ {
                        assert(toks.len() >= 2);
                        assert(c.allow == c0.allow && c.block == c0.block && c.listen == c0.listen
                            && c.upstream == c0.upstream && c.log_level == c0.log_level);
                    } else {
                        assert(c == c0);
                    }
                }
                assert(lines_describe(lines, k, c));
            }
        }
    }
}

/// A parsed proxy configuration says what its lines say: every
/// `Proxy.Allow` and `Proxy.Block` line adds its rule, in line order (so
/// there are as many rules as such lines), and the listen address,
/// upstream, log level and rate limit are those of the last line that
/// names them, or the defaults.
pub proof fn law_directives_set_their_fields(text: Seq<char>)
    ensures
        parse_outcome(text) matches ParseOutcome::Parsed(c) ==> lines_describe(
            lines_of(text),
            lines_of(text).len() as int,
            c,
        ),
{
    let lines = lines_of(text);
    lemma_prefix_describes(lines, lines.len() as int);
}

} // verus!

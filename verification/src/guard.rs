//! Request gatekeeping: IP allow/block + per-IP rate limiting.
//!
//! Allow / block semantics:
//!   - If any `block` rule matches → deny.
//!   - If `allow` rules are present, the request IP must match at least one of
//!     them; otherwise → deny. (Empty allow list = allow all.)
//!
//! Rate limiting is a fixed-window counter per IP. Times are nanoseconds on
//! the guard's own monotonic clock.
use vstd::prelude::*;

use crate::net::IpAddress;
use crate::proxy_config::{rule_matches, rules_view, IpRule, IpRuleView, RateLimit};

verus! {

/// Above this many tracked addresses, expired counters are dropped first.
pub const GC_THRESHOLD: usize = 4096;

/// Nanoseconds per second.
pub const NANOS_PER_SEC: u128 = 1_000_000_000;

/// Requests seen from one address in its current window.
#[derive(Clone, Copy, Debug, PartialEq, Eq, Structural)]
pub struct Counter {
    /// When the window began.
    pub window_start: u128,
    pub count: u32,
}

/// The verdict on one request.
#[derive(Clone, Copy, Debug, PartialEq, Eq, Structural)]
pub enum Decision {
    Allow,
    BlockedByList,
    BlockedByAllowList,
    /// Over budget; the window ends after `retry_after` nanoseconds.
    RateLimited { retry_after: u128 },
}

#[verifier::external_type_specification]
#[verifier::external_body]
pub struct ExInstant(std::time::Instant);

/// `Instant::now()`: the current reading of the monotonic clock.
#[verifier::external_body]
fn instant_now() -> std::time::Instant {
    std::time::Instant::now()
}

/// `Instant::elapsed`, in nanoseconds. Nothing is stated of the value: it
/// depends on when the call is made.
#[verifier::external_body]
fn nanos_since(origin: &std::time::Instant) -> u128 {
    origin.elapsed().as_nanos()
}

/// `Instant::duration_since`, which saturates at zero.
pub open spec fn elapsed(now: u128, start: u128) -> u128 {
    if now >= start {
        (now - start) as u128
    } else {
        0
    }
}

pub open spec fn window_nanos(rate: RateLimit) -> u128 {
    (rate.window as u128 * NANOS_PER_SEC) as u128
}

pub open spec fn any_rule_matches(rules: Seq<IpRuleView>, a: IpAddress) -> bool {
    exists|i: int| 0 <= i < rules.len() && rule_matches(#[trigger] rules[i], a)
}

/// The counters that survive garbage collection at `now`: those whose
/// window has not yet run out.
pub open spec fn live_counters(m: Map<IpAddress, Counter>, now: u128, w: u128) -> Map<
    IpAddress,
    Counter,
> {
    m.restrict(Set::new(|k: IpAddress| elapsed(now, m[k].window_start) < w))
}

/// The counter of `a` after counting one more request at `now`.
pub open spec fn bumped(m: Map<IpAddress, Counter>, a: IpAddress, now: u128, w: u128) -> Counter {
    let c = if m.dom().contains(a) {
        m[a]
    } else {
        Counter { window_start: now, count: 0 }
    };
    let c = if elapsed(now, c.window_start) >= w {
        Counter { window_start: now, count: 0 }
    } else {
        c
    };
    Counter { count: if c.count < u32::MAX { (c.count + 1) as u32 } else { c.count }, ..c }
}

/// The decision on a request from `a` at `now`, and the counters after it.
pub open spec fn decide(
    allow: Seq<IpRuleView>,
    block: Seq<IpRuleView>,
    rate: Option<RateLimit>,
    counters: Map<IpAddress, Counter>,
    a: IpAddress,
    now: u128,
) -> (Decision, Map<IpAddress, Counter>) {
    if any_rule_matches(block, a) {
        (Decision::BlockedByList, counters)
    } else if allow.len() > 0 && !any_rule_matches(allow, a) {
        (Decision::BlockedByAllowList, counters)
    } else {
        match rate {
            None => (Decision::Allow, counters),
            Some(r) => {
                let w = window_nanos(r);
                let m = if counters.len() > GC_THRESHOLD {
                    live_counters(counters, now, w)
                } else {
                    counters
                };
                let c = bumped(m, a, now, w);
                let m2 = m.insert(a, c);
                if c.count > r.requests {
                    (
                        Decision::RateLimited {
                            retry_after: (w - elapsed(now, c.window_start)) as u128,
                        },
                        m2,
                    )
                } else {
                    (Decision::Allow, m2)
                }
            },
        }
    }
}

/// The vector of counters represents the map: keys are unique and the
/// entries are exactly the map's.
pub open spec fn table_wf(v: Seq<(IpAddress, Counter)>, m: Map<IpAddress, Counter>) -> bool {
    &&& forall|i: int, j: int| 0 <= i < j < v.len() ==> (#[trigger] v[i]).0 != (#[trigger] v[j]).0
    &&& forall|i: int| 0 <= i < v.len() ==> m.dom().contains((#[trigger] v[i]).0) && m[v[i].0]
        == v[i].1
    &&& forall|a: IpAddress| #[trigger] m.dom().contains(a) ==> exists|i: int|
        0 <= i < v.len() && (#[trigger] v[i]).0 == a
}

proof fn lemma_table_len(v: Seq<(IpAddress, Counter)>, m: Map<IpAddress, Counter>)
    requires
        table_wf(v, m),
    ensures
        m.dom().finite(),
        m.len() == v.len(),
{
    let keys = Seq::new(v.len(), |i: int| v[i].0);
    assert(keys.no_duplicates()) by {
        assert forall|i: int, j: int| 0 <= i < keys.len() && 0 <= j < keys.len() && i != j implies keys[i]
            != keys[j] by {
            if i < j {
                assert(v[i].0 != v[j].0);
            } else {
                assert(v[j].0 != v[i].0);
            }
        }
    }
    keys.unique_seq_to_set();
    assert(m.dom() =~= keys.to_set()) by {
        assert forall|a: IpAddress| m.dom().contains(a) implies keys.to_set().contains(a) by {
            let i = choose|i: int| 0 <= i < v.len() && (#[trigger] v[i]).0 == a;
            assert(keys[i] == a);
        }
        assert forall|a: IpAddress| keys.to_set().contains(a) implies m.dom().contains(a) by {
            let i = choose|i: int| 0 <= i < keys.len() && keys[i] == a;
            assert(v[i].0 == a);
        }
    }
    vstd::seq_lib::seq_to_set_is_finite(keys);
}

/// Gatekeeper for one proxy: address rules and per-address counters.
pub struct Guard {
    pub allow: Vec<IpRule>,
    pub block: Vec<IpRule>,
    pub rate: Option<RateLimit>,
    counters: Vec<(IpAddress, Counter)>,
    table: Ghost<Map<IpAddress, Counter>>,
    clock: std::time::Instant,
}

impl Guard {
    /// The allow rules.
    pub closed spec fn allow_rules(&self) -> Seq<IpRuleView> {
        rules_view(self.allow@)
    }

    /// The block rules.
    pub closed spec fn block_rules(&self) -> Seq<IpRuleView> {
        rules_view(self.block@)
    }

    /// The rate limit.
    pub closed spec fn rate_limit(&self) -> Option<RateLimit> {
        self.rate
    }

    /// The per-address counters.
    pub closed spec fn counters(&self) -> Map<IpAddress, Counter> {
        self.table@
    }

    /// The internal table represents the counters.
    pub closed spec fn wf(&self) -> bool {
        table_wf(self.counters@, self.table@)
    }

    pub fn new(allow: Vec<IpRule>, block: Vec<IpRule>, rate: Option<RateLimit>) -> (g: Guard)
        ensures
            g.wf(),
            g.allow_rules() == rules_view(allow@),
            g.block_rules() == rules_view(block@),
            g.rate_limit() == rate,
            g.counters() == Map::<IpAddress, Counter>::empty(),
    {
        Guard {
            allow,
            block,
            rate,
            counters: Vec::new(),
            table: Ghost(Map::empty()),
            clock: instant_now(),
        }
    }

    /// Decide on a request from `addr` at the current time.
    pub fn check(&mut self, addr: IpAddress) -> (d: Decision)
        requires
            old(self).wf(),
        ensures
            final(self).wf(),
            final(self).allow_rules() == old(self).allow_rules(),
            final(self).block_rules() == old(self).block_rules(),
            final(self).rate_limit() == old(self).rate_limit(),
            exists|now: u128|
                decide(
                    old(self).allow_rules(),
                    old(self).block_rules(),
                    old(self).rate_limit(),
                    old(self).counters(),
                    addr,
                    now,
                ) == (d, final(self).counters()),
    {
        let now = nanos_since(&self.clock);
        self.check_at(addr, now)
    }

    /// Decide on a request from `addr` at time `now` (see [`decide`]).
    pub fn check_at(&mut self, addr: IpAddress, now: u128) -> (d: Decision)
        requires
            old(self).wf(),
        ensures
            final(self).wf(),
            final(self).allow_rules() == old(self).allow_rules(),
            final(self).block_rules() == old(self).block_rules(),
            final(self).rate_limit() == old(self).rate_limit(),
            decide(
                old(self).allow_rules(),
                old(self).block_rules(),
                old(self).rate_limit(),
                old(self).counters(),
                addr,
                now,
            ) == (d, final(self).counters()),
    {
        if any_match(&self.block, addr) {
            return Decision::BlockedByList;
        }
        if self.allow.len() > 0 && !any_match(&self.allow, addr) {
            return Decision::BlockedByAllowList;
        }
        let rate = match self.rate {
            None => {
                return Decision::Allow;
            },
            Some(r) => r,
        };
        let w: u128 = rate.window as u128 * NANOS_PER_SEC;
        proof {
            lemma_table_len(self.counters@, self.table@);
        }
        if self.counters.len() > GC_THRESHOLD {
            self.drop_expired(now, w);
        }
        let ghost m = self.table@;
        let c = match self.find(addr) {
            Some(i) => self.counters[i].1,
            None => Counter { window_start: now, count: 0 },
        };
        let c = if now.saturating_sub(c.window_start) >= w {
            Counter { window_start: now, count: 0 }
        } else {
            c
        };
        let c = Counter { count: c.count.saturating_add(1), ..c };
        self.store(addr, c);
        if c.count > rate.requests {
            Decision::RateLimited { retry_after: w - now.saturating_sub(c.window_start) }
        } else {
            Decision::Allow
        }
    }

    /// Index of the counter of `a`, if any.
    fn find(&self, a: IpAddress) -> (r: Option<usize>)
        requires
            self.wf(),
        ensures
            match r {
                Some(i) => i < self.counters@.len() && self.counters@[i as int].0 == a
                    && self.counters().dom().contains(a) && self.counters()[a]
                    == self.counters@[i as int].1,
                None => !self.counters().dom().contains(a),
            },
    {
        let mut i: usize = 0;
        while i < self.counters.len()
            invariant
                0 <= i <= self.counters@.len(),
                self.wf(),
                forall|k: int| 0 <= k < i ==> (#[trigger] self.counters@[k]).0 != a,
            decreases self.counters@.len() - i,
        {
            if self.counters[i].0 == a {
                return Some(i);
            }
            i = i + 1;
        }
        None
    }

    /// Set the counter of `a`.
    fn store(&mut self, a: IpAddress, c: Counter)
        requires
            old(self).wf(),
        ensures
            final(self).wf(),
            final(self).counters() == old(self).counters().insert(a, c),
            final(self).allow_rules() == old(self).allow_rules(),
            final(self).block_rules() == old(self).block_rules(),
            final(self).rate_limit() == old(self).rate_limit(),
    {
        let ghost m = self.table@;
        let ghost v = self.counters@;
        match self.find(a) {
            Some(i) => {
                self.counters.set(i, (a, c));
                self.table = Ghost(m.insert(a, c));
                proof {
                    let v2 = self.counters@;
                    assert forall|b: IpAddress| #[trigger] self.table@.dom().contains(b) implies exists|
                        j: int,
                    | 0 <= j < v2.len() && (#[trigger] v2[j]).0 == b by {
                        if b == a {
                            assert(v2[i as int].0 == b);
                        } else {
                            let j = choose|j: int| 0 <= j < v.len() && (#[trigger] v[j]).0 == b;
                            assert(v2[j].0 == b);
                        }
                    }
                }
            },
            None => {
                self.counters.push((a, c));
                self.table = Ghost(m.insert(a, c));
                proof {
                    let v2 = self.counters@;
                    assert forall|x: int, y: int| 0 <= x < y < v2.len() implies (#[trigger] v2[x]).0
                        != (#[trigger] v2[y]).0 by {
                        if y == v.len() {
                            assert(m.dom().contains(v[x].0));
                        }
                    }
                    assert forall|b: IpAddress| #[trigger] self.table@.dom().contains(b) implies exists|
                        j: int,
                    | 0 <= j < v2.len() && (#[trigger] v2[j]).0 == b by {
                        if b == a {
                            assert(v2[v.len() as int].0 == b);
                        } else {
                            let j = choose|j: int| 0 <= j < v.len() && (#[trigger] v[j]).0 == b;
                            assert(v2[j].0 == b);
                        }
                    }
                }
            },
        }
    }

    /// Drop the counters whose window has run out at `now`.
    fn drop_expired(&mut self, now: u128, w: u128)
        requires
            old(self).wf(),
        ensures
            final(self).wf(),
            final(self).counters() == live_counters(old(self).counters(), now, w),
            final(self).allow_rules() == old(self).allow_rules(),
            final(self).block_rules() == old(self).block_rules(),
            final(self).rate_limit() == old(self).rate_limit(),
    {
        let ghost v = self.counters@;
        let ghost m = self.table@;
        let ghost live = live_counters(m, now, w);
        let mut kept: Vec<(IpAddress, Counter)> = Vec::new();
        // `src[t]` is the index in `v` of `kept[t]`; `rank[j]` the index in
        // `kept` of `v[j]` when that entry is kept.
        let ghost mut src: Seq<int> = Seq::empty();
        let ghost mut rank: Seq<int> = Seq::empty();
        let mut i: usize = 0;
        while i < self.counters.len()
            invariant
                0 <= i <= v.len(),
                self.counters@ == v,
                kept@.len() == src.len(),
                rank.len() == i,
                forall|t: int|
                    0 <= t < src.len() ==> 0 <= #[trigger] src[t] < i && kept@[t] == v[src[t]]
                        && elapsed(now, v[src[t]].1.window_start) < w,
                forall|x: int, y: int| 0 <= x < y < src.len() ==> #[trigger] src[x] < #[trigger] src[y],
                forall|j: int|
                    0 <= j < i && elapsed(now, v[j].1.window_start) < w ==> 0 <= #[trigger] rank[j]
                        < src.len() && src[rank[j]] == j,
            decreases v.len() - i,
        {
            let e = self.counters[i];
            if now.saturating_sub(e.1.window_start) < w {
                proof {
                    rank = rank.push(src.len() as int);
                    src = src.push(i as int);
                }
                kept.push(e);
            } else {
                proof {
                    rank = rank.push(-1);
                }
            }
            i = i + 1;
        }
        self.counters = kept;
        self.table = Ghost(live);
        proof {
            let k = self.counters@;
            assert forall|x: int, y: int| 0 <= x < y < k.len() implies (#[trigger] k[x]).0
                != (#[trigger] k[y]).0 by {
                assert(src[x] < src[y]);
                assert(v[src[x]].0 != v[src[y]].0);
            }
            assert forall|t: int| 0 <= t < k.len() implies live.dom().contains((#[trigger] k[t]).0)
                && live[k[t].0] == k[t].1 by {
                assert(m.dom().contains(v[src[t]].0));
            }
            assert forall|a: IpAddress| #[trigger] live.dom().contains(a) implies exists|t: int|
                0 <= t < k.len() && (#[trigger] k[t]).0 == a by {
                let j = choose|j: int| 0 <= j < v.len() && (#[trigger] v[j]).0 == a;
                assert(elapsed(now, v[j].1.window_start) < w);
                assert(k[rank[j]].0 == a);
            }
        }
    }
}

/// Whether any rule of a list matches an address.
fn any_match(rules: &Vec<IpRule>, a: IpAddress) -> (r: bool)
    ensures
        r == any_rule_matches(rules_view(rules@), a),
{
    let mut i: usize = 0;
    while i < rules.len()
        invariant
            0 <= i <= rules@.len(),
            forall|k: int| 0 <= k < i ==> !rule_matches(#[trigger] rules_view(rules@)[k], a),
        decreases rules@.len() - i,
    {
        if rules[i].matches(a) {
            assert(rule_matches(rules_view(rules@)[i as int], a));
            return true;
        }
        i = i + 1;
    }
    false
}


/// A request from an address that a block rule matches is refused as
/// blocked, whatever the allow rules say, and no counter changes.
pub proof fn law_block_beats_allow(
    allow: Seq<IpRuleView>,
    block: Seq<IpRuleView>,
    rate: Option<RateLimit>,
    counters: Map<IpAddress, Counter>,
    a: IpAddress,
    now: u128,
)
    requires
        any_rule_matches(block, a),
    ensures
        decide(allow, block, rate, counters, a, now) == (Decision::BlockedByList, counters),
{
}

/// With allow rules present, an unblocked address that none of them
/// matches is refused, and no counter changes.
pub proof fn law_allow_list_excludes_others(
    allow: Seq<IpRuleView>,
    block: Seq<IpRuleView>,
    rate: Option<RateLimit>,
    counters: Map<IpAddress, Counter>,
    a: IpAddress,
    now: u128,
)
    requires
        !any_rule_matches(block, a),
        allow.len() > 0,
        !any_rule_matches(allow, a),
    ensures
        decide(allow, block, rate, counters, a, now) == (Decision::BlockedByAllowList, counters),
{
}

/// Without rules and without a rate limit every address is allowed.
pub proof fn law_no_rules_admit_everyone(
    counters: Map<IpAddress, Counter>,
    a: IpAddress,
    now: u128,
)
    ensures
        decide(Seq::empty(), Seq::empty(), None, counters, a, now) == (Decision::Allow, counters),
{
}

/// Within a live window, a request raises the address's count by one and
/// is allowed exactly while the count stays within the budget; when it is
/// refused, the wait is what is left of the window.
pub proof fn law_fixed_window_counts(
    allow: Seq<IpRuleView>,
    block: Seq<IpRuleView>,
    r: RateLimit,
    counters: Map<IpAddress, Counter>,
    a: IpAddress,
    now: u128,
)
    requires
        !any_rule_matches(block, a),
        allow.len() == 0 || any_rule_matches(allow, a),
        counters.dom().contains(a),
        elapsed(now, counters[a].window_start) < window_nanos(r),
        counters[a].count < u32::MAX,
    ensures
        ({
            let (d, m) = decide(allow, block, Some(r), counters, a, now);
            &&& m[a] == Counter { count: (counters[a].count + 1) as u32, ..counters[a] }
            &&& (d == Decision::Allow) <==> counters[a].count + 1 <= r.requests
            &&& d != Decision::Allow ==> d == Decision::RateLimited {
                retry_after: (window_nanos(r) - elapsed(now, counters[a].window_start)) as u128,
            }
        }),
{
}

/// An address without a live window starts a new one at `now` with a count
/// of one, and is allowed when the budget is at least one request.
pub proof fn law_new_window_starts_at_one(
    allow: Seq<IpRuleView>,
    block: Seq<IpRuleView>,
    r: RateLimit,
    counters: Map<IpAddress, Counter>,
    a: IpAddress,
    now: u128,
)
    requires
        !any_rule_matches(block, a),
        allow.len() == 0 || any_rule_matches(allow, a),
        !counters.dom().contains(a) || elapsed(now, counters[a].window_start) >= window_nanos(r),
    ensures
        ({
            let (d, m) = decide(allow, block, Some(r), counters, a, now);
            &&& m[a] == Counter { window_start: now, count: 1 }
            &&& (d == Decision::Allow) <==> r.requests >= 1
        }),
{
}

/// Counting a request from one address leaves every other address's
/// counter as it was, except that expired counters may be dropped.
pub proof fn law_counters_are_per_address(
    allow: Seq<IpRuleView>,
    block: Seq<IpRuleView>,
    rate: Option<RateLimit>,
    counters: Map<IpAddress, Counter>,
    a: IpAddress,
    b: IpAddress,
    now: u128,
)
    requires
        a != b,
    ensures
        ({
            let m = decide(allow, block, rate, counters, a, now).1;
            &&& m.dom().contains(b) ==> counters.dom().contains(b) && m[b] == counters[b]
            &&& counters.dom().contains(b) && (rate matches Some(r) ==> elapsed(
                now,
                counters[b].window_start,
            ) < window_nanos(r)) ==> m.dom().contains(b)
        }),
{
}

/// The decisions on successive requests from `a` at the given times, each
/// one counted in the counters the previous one left.
pub open spec fn decisions(
    allow: Seq<IpRuleView>,
    block: Seq<IpRuleView>,
    rate: Option<RateLimit>,
    counters: Map<IpAddress, Counter>,
    a: IpAddress,
    times: Seq<u128>,
) -> Seq<Decision>
    decreases times.len(),
{
    if times.len() == 0 {
        Seq::empty()
    } else {
        let (d, m) = decide(allow, block, rate, counters, a, times[0]);
        seq![d] + decisions(allow, block, rate, m, a, times.drop_first())
    }
}

proof fn lemma_live_window_series(
    allow: Seq<IpRuleView>,
    block: Seq<IpRuleView>,
    r: RateLimit,
    counters: Map<IpAddress, Counter>,
    a: IpAddress,
    times: Seq<u128>,
    start: u128,
    count: u32,
)
    requires
        !any_rule_matches(block, a),
        allow.len() == 0 || any_rule_matches(allow, a),
        counters.dom().contains(a),
        counters[a] == (Counter { window_start: start, count }),
        forall|j: int| 0 <= j < times.len() ==> #[trigger] times[j] >= start && times[j] - start
            < window_nanos(r),
        count + times.len() < u32::MAX,
    ensures
        decisions(allow, block, Some(r), counters, a, times).len() == times.len(),
        forall|j: int| 0 <= j < times.len() ==> ((#[trigger] decisions(allow, block, Some(r), counters, a, times)[j]
            == Decision::Allow) <==> count + j + 1 <= r.requests),
    decreases times.len(),
{
    if times.len() > 0 {
        let t = times[0];
        assert(times[0] >= start);
        law_fixed_window_counts(allow, block, r, counters, a, t);
        let (d, m) = decide(allow, block, Some(r), counters, a, t);
        let rest = times.drop_first();
        assert forall|j: int| 0 <= j < rest.len() implies #[trigger] rest[j] >= start && rest[j] - start
            < window_nanos(r) by {
            assert(rest[j] == times[j + 1]);
        }
        lemma_live_window_series(allow, block, r, m, a, rest, start, (count + 1) as u32);
        assert forall|j: int| 0 <= j < times.len() implies (#[trigger] decisions(
            allow,
            block,
            Some(r),
            counters,
            a,
            times,
        )[j] == Decision::Allow) <==> count + j + 1 <= r.requests by {
            if j > 0 {
                assert(decisions(allow, block, Some(r), counters, a, times)[j] == decisions(
                    allow,
                    block,
                    Some(r),
                    m,
                    a,
                    rest,
                )[j - 1]);
            }
        }
    }
}

/// Over successive requests from one address, the first opening a window
/// and the rest falling inside it, the `k`-th request (counting from one)
/// is allowed exactly when `k` is within the budget: at most
/// `requests` are allowed per address per window.
pub proof fn law_window_allows_budget(
    allow: Seq<IpRuleView>,
    block: Seq<IpRuleView>,
    r: RateLimit,
    counters: Map<IpAddress, Counter>,
    a: IpAddress,
    times: Seq<u128>,
)
    requires
        !any_rule_matches(block, a),
        allow.len() == 0 || any_rule_matches(allow, a),
        times.len() > 0,
        !counters.dom().contains(a) || elapsed(times[0], counters[a].window_start) >= window_nanos(r),
        forall|j: int| 0 <= j < times.len() ==> #[trigger] times[j] >= times[0] && times[j] - times[0]
            < window_nanos(r),
        times.len() < u32::MAX,
    ensures
        decisions(allow, block, Some(r), counters, a, times).len() == times.len(),
        forall|j: int| 0 <= j < times.len() ==> ((#[trigger] decisions(allow, block, Some(r), counters, a, times)[j]
            == Decision::Allow) <==> j + 1 <= r.requests),
{
    let t0 = times[0];
    law_new_window_starts_at_one(allow, block, r, counters, a, t0);
    let (d, m) = decide(allow, block, Some(r), counters, a, t0);
    let rest = times.drop_first();
    assert forall|j: int| 0 <= j < rest.len() implies #[trigger] rest[j] >= t0 && rest[j] - t0 < window_nanos(
        r,
    ) by {
        assert(rest[j] == times[j + 1]);
    }
    assert(m.dom().contains(a));
    lemma_live_window_series(allow, block, r, m, a, rest, t0, 1);
    assert forall|j: int| 0 <= j < times.len() implies (#[trigger] decisions(
        allow,
        block,
        Some(r),
        counters,
        a,
        times,
    )[j] == Decision::Allow) <==> j + 1 <= r.requests by {
        if j > 0 {
            assert(decisions(allow, block, Some(r), counters, a, times)[j] == decisions(
                allow,
                block,
                Some(r),
                m,
                a,
                rest,
            )[j - 1]);
        }
    }
}

} // verus!

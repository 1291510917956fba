//! The per-client-IP rate limiter and the client-IP derivation.
//!
//! Each client IP holds a token budget per fixed time window.  The
//! state is bounded: when it is full, the entry with the oldest window
//! is evicted.  The client IP comes from the rightmost
//! `X-Forwarded-For` element when that header is present, otherwise
//! from the transport peer address.

use vstd::prelude::*;
use crate::text::{is_space, chars_of, string_from_chars, concat_str};

verus! {

/// The characters after the last comma (the whole sequence when there
/// is no comma).
pub open spec fn after_last_comma(s: Seq<char>) -> Seq<char>
    decreases s.len(),
{
    if s.len() == 0 {
        s
    } else if s.last() == ',' {
        Seq::empty()
    } else {
        after_last_comma(s.drop_last()).push(s.last())
    }
}

/// The sequence without leading whitespace.
pub open spec fn trim_front(s: Seq<char>) -> Seq<char>
    decreases s.len(),
{
    if s.len() > 0 && is_space(s[0]) {
        trim_front(s.drop_first())
    } else {
        s
    }
}

/// The sequence without trailing whitespace.
pub open spec fn trim_back(s: Seq<char>) -> Seq<char>
    decreases s.len(),
{
    if s.len() > 0 && is_space(s.last()) {
        trim_back(s.drop_last())
    } else {
        s
    }
}

/// The sequence without leading and trailing whitespace.
pub open spec fn trimmed(s: Seq<char>) -> Seq<char> {
    trim_back(trim_front(s))
}

/// The client IP: the trimmed rightmost forwarded element when the
/// header is present, else the peer address marked as such.
pub open spec fn client_ip_of(peer: Seq<char>, forwarded: Option<Seq<char>>) -> Seq<char> {
    match forwarded {
        Some(h) => trimmed(after_last_comma(h)),
        None => "proxy: "@ + peer,
    }
}

/// A suffix that contains no comma and starts right after one (or at
/// the very beginning) is the after-last-comma segment.
proof fn lemma_after_last_comma(s: Seq<char>, j: int)
    requires
        0 <= j <= s.len(),
        forall|k: int| j <= k < s.len() ==> s[k] != ',',
        j == 0 || s[j - 1] == ',',
    ensures
        after_last_comma(s) == s.skip(j),
    decreases s.len(),
{
    if s.len() == j {
        assert(s.skip(j) =~= Seq::<char>::empty());
        if j > 0 {
            assert(s.last() == ',');
        } else {
            assert(after_last_comma(s) =~= s.skip(0));
        }
    } else {
        assert(s.last() != ',');
        lemma_after_last_comma(s.drop_last(), j);
        assert(after_last_comma(s) =~= s.skip(j)) by {
            assert(s.drop_last().skip(j) =~= s.skip(j).drop_last());
        }
    }
}

/// A suffix beginning at the first non-space position is the
/// front-trimmed sequence.
proof fn lemma_trim_front(s: Seq<char>, a: int)
    requires
        0 <= a <= s.len(),
        forall|k: int| 0 <= k < a ==> is_space(s[k]),
        a == s.len() || !is_space(s[a]),
    ensures
        trim_front(s) == s.skip(a),
    decreases a,
{
    if a == 0 {
        assert(trim_front(s) =~= s.skip(0));
    } else {
        assert(is_space(s[0]));
        lemma_trim_front(s.drop_first(), a - 1);
        assert(s.drop_first().skip(a - 1) =~= s.skip(a));
    }
}

/// A prefix ending at the last non-space position is the back-trimmed
/// sequence.
proof fn lemma_trim_back(s: Seq<char>, b: int)
    requires
        0 <= b <= s.len(),
        forall|k: int| b <= k < s.len() ==> is_space(s[k]),
        b == 0 || !is_space(s[b - 1]),
    ensures
        trim_back(s) == s.take(b),
    decreases s.len(),
{
    if b == s.len() {
        if b == 0 {
            assert(trim_back(s) =~= s.take(0));
        } else {
            assert(!is_space(s.last()));
            assert(trim_back(s) =~= s.take(b));
        }
    } else {
        assert(is_space(s.last()));
        lemma_trim_back(s.drop_last(), b);
        assert(s.drop_last().take(b) =~= s.take(b));
    }
}

/// Derives the client IP from the peer address and the forwarded
/// header, per [`client_ip_of`].
pub fn parse_client_ip(peer_ip: &str, forwarded: Option<&str>) -> (r: String)
    ensures
        r@ == client_ip_of(
            peer_ip@,
            match forwarded {
                Some(h) => Some(h@),
                None => None,
            },
        ),
{
    match forwarded {
        None => concat_str("proxy: ", peer_ip),
        Some(h) => {
            let cs = chars_of(h);
            let n = cs.len();
            // position right after the last comma
            let mut j: usize = n;
            while j > 0 && cs[j - 1] != ','
                invariant
                    j <= n,
                    n == cs@.len(),
                    forall|k: int| j <= k < n ==> cs@[k] != ',',
                decreases j,
            {
                j -= 1;
            }
            // first non-space position of the segment
            let mut a: usize = j;
            while a < n && (cs[a] == ' ' || cs[a] == '\t' || cs[a] == '\n' || cs[a] == '\r')
                invariant
                    j <= a <= n,
                    n == cs@.len(),
                    forall|k: int| j <= k < a ==> is_space(cs@[k]),
                decreases n - a,
            {
                a += 1;
            }
            // position after the last non-space of the segment
            let mut b: usize = n;
            while b > a && (cs[b - 1] == ' ' || cs[b - 1] == '\t' || cs[b - 1] == '\n' || cs[b - 1]
                == '\r')
                invariant
                    a <= b <= n,
                    n == cs@.len(),
                    forall|k: int| b <= k < n ==> is_space(cs@[k]),
                decreases b,
            {
                b -= 1;
            }
            let mut out: Vec<char> = Vec::new();
            let mut i: usize = a;
            while i < b
                invariant
                    a <= i <= b <= n,
                    n == cs@.len(),
                    out@ == cs@.subrange(a as int, i as int),
                decreases b - i,
            {
                out.push(cs[i]);
                proof {
                    assert(out@ =~= cs@.subrange(a as int, i + 1));
                }
                i += 1;
            }
            proof {
                lemma_after_last_comma(h@, j as int);
                let seg = h@.skip(j as int);
                lemma_trim_front(seg, a - j);
                assert(seg.skip(a - j) =~= h@.skip(a as int));
                let seg2 = h@.skip(a as int);
                lemma_trim_back(seg2, b - a);
                assert(seg2.take(b - a) =~= h@.subrange(a as int, b as int));
                assert(out@ =~= cs@.subrange(a as int, b as int));
            }
            string_from_chars(&out)
        },
    }
}

/// One client's budget: the IP, the start of its current window and
/// the number of requests seen in that window.
pub struct IpBudget {
    pub ip: String,
    pub window_start_ms: u64,
    pub count: u64,
}

/// Mathematical value of an [`IpBudget`].
#[verifier::ext_equal]
pub struct IpBudgetView {
    pub ip: Seq<char>,
    pub window_start_ms: u64,
    pub count: u64,
}

impl View for IpBudget {
    type V = IpBudgetView;

    open spec fn view(&self) -> IpBudgetView {
        IpBudgetView {
            ip: self.ip@,
            window_start_ms: self.window_start_ms,
            count: self.count,
        }
    }
}

/// The sequence of views of the budget entries.
pub open spec fn budgets_view(s: Seq<IpBudget>) -> Seq<IpBudgetView> {
    Seq::new(s.len(), |i: int| s[i]@)
}

/// The per-IP rate limiter state.
pub struct RateLimiter {
    pub entries: Vec<IpBudget>,
    pub limit_per_window: u64,
    pub window_ms: u64,
    pub max_entries: usize,
}

/// Index of the entry for `ip` at or after `i`, or -1.
pub open spec fn ip_idx(es: Seq<IpBudgetView>, ip: Seq<char>, i: nat) -> int
    decreases es.len() - i when i <= es.len()
{
    if i >= es.len() {
        -1
    } else if es[i as int].ip == ip {
        i as int
    } else {
        ip_idx(es, ip, i + 1)
    }
}

/// Index of the entry with the oldest window among `best` and
/// everything at or after `i` (first among ties).
pub open spec fn oldest_from(es: Seq<IpBudgetView>, i: nat, best: int) -> int
    decreases es.len() - i when i <= es.len()
{
    if i >= es.len() {
        best
    } else if 0 <= best < es.len() && es[i as int].window_start_ms < es[best].window_start_ms {
        oldest_from(es, i + 1, i as int)
    } else {
        oldest_from(es, i + 1, best)
    }
}

/// The limiter state is well-formed: it can hold at least one entry,
/// is within its bound, and holds each IP at most once.
pub open spec fn limiter_wf(es: Seq<IpBudgetView>, max_entries: usize) -> bool {
    &&& max_entries >= 1
    &&& es.len() <= max_entries
    &&& forall|a: int, b: int| 0 <= a < b < es.len() ==> (#[trigger] es[a]).ip != (#[trigger] es[b]).ip
}

/// The decision and the new state for one request: a known IP in a
/// fresh window restarts its budget; within the window the request is
/// counted while the budget lasts and refused afterwards; an unknown
/// IP starts a budget of one, evicting the entry with the oldest
/// window when the state is full.
pub open spec fn limiter_check(
    es: Seq<IpBudgetView>,
    limit: u64,
    window_ms: u64,
    max_entries: usize,
    ip: Seq<char>,
    now: u64,
) -> (Seq<IpBudgetView>, bool) {
    let i = ip_idx(es, ip, 0);
    if i >= 0 {
        let e = es[i];
        if now >= e.window_start_ms + window_ms {
            (
                es.update(i, IpBudgetView { ip: ip, window_start_ms: now, count: 1 }),
                true,
            )
        } else if e.count < limit {
            (
                es.update(i, IpBudgetView { ip: e.ip, window_start_ms: e.window_start_ms, count: (e.count + 1) as u64 }),
                true,
            )
        } else {
            (es, false)
        }
    } else {
        let es1 = if es.len() >= max_entries && es.len() > 0 {
            es.remove(oldest_from(es, 1, 0))
        } else {
            es
        };
        (es1.push(IpBudgetView { ip: ip, window_start_ms: now, count: 1 }), true)
    }
}

/// A request from `ip` is refused exactly when that IP already spent
/// its whole budget in a window that still runs.
pub open spec fn over_budget(
    es: Seq<IpBudgetView>,
    limit: u64,
    window_ms: u64,
    ip: Seq<char>,
    now: u64,
) -> bool {
    exists|i: int|
        0 <= i < es.len() && (#[trigger] es[i]).ip == ip && now < es[i].window_start_ms + window_ms
            && es[i].count >= limit
}

/// Soundness and minimality of [`ip_idx`].
proof fn lemma_ip_idx(es: Seq<IpBudgetView>, ip: Seq<char>, i: nat)
    requires
        i <= es.len(),
    ensures
        -1 <= ip_idx(es, ip, i) < es.len(),
        ip_idx(es, ip, i) >= 0 ==> i <= ip_idx(es, ip, i) && es[ip_idx(es, ip, i)].ip == ip,
        ip_idx(es, ip, i) < 0 ==> forall|j: int| i <= j < es.len() ==> es[j].ip != ip,
    decreases es.len() - i,
{
    if i < es.len() && es[i as int].ip != ip {
        lemma_ip_idx(es, ip, i + 1);
    }
}

/// [`oldest_from`] stays in range.
proof fn lemma_oldest_range(es: Seq<IpBudgetView>, i: nat, best: int)
    requires
        i <= es.len(),
        0 <= best < es.len(),
    ensures
        0 <= oldest_from(es, i, best) < es.len(),
    decreases es.len() - i,
{
    if i < es.len() {
        if es[i as int].window_start_ms < es[best].window_start_ms {
            lemma_oldest_range(es, i + 1, i as int);
        } else {
            lemma_oldest_range(es, i + 1, best);
        }
    }
}

impl RateLimiter {
    /// Creates a limiter with the given budget, window and state
    /// bound.
    pub fn new(limit_per_window: u64, window_ms: u64, max_entries: usize) -> (r: RateLimiter)
        requires
            max_entries >= 1,
        ensures
            budgets_view(r.entries@) == Seq::<IpBudgetView>::empty(),
            r.limit_per_window == limit_per_window,
            r.window_ms == window_ms,
            r.max_entries == max_entries,
            limiter_wf(budgets_view(r.entries@), r.max_entries),
    {
        let r = RateLimiter {
            entries: Vec::new(),
            limit_per_window: limit_per_window,
            window_ms: window_ms,
            max_entries: max_entries,
        };
        proof {
            assert(budgets_view(r.entries@) =~= Seq::<IpBudgetView>::empty());
        }
        r
    }

    /// Decides one request from `ip` at time `now_ms` and updates the
    /// state, per [`limiter_check`].  The request is refused exactly
    /// when the IP is [`over_budget`].
    #[verifier::loop_isolation(false)]
    pub fn check(&mut self, ip: &str, now_ms: u64) -> (allowed: bool)
        requires
            limiter_wf(budgets_view(old(self).entries@), old(self).max_entries),
            old(self).limit_per_window >= 1,
        ensures
            limiter_wf(budgets_view(final(self).entries@), final(self).max_entries),
            final(self).limit_per_window == old(self).limit_per_window,
            final(self).window_ms == old(self).window_ms,
            final(self).max_entries == old(self).max_entries,
            (budgets_view(final(self).entries@), allowed) == limiter_check(
                budgets_view(old(self).entries@),
                old(self).limit_per_window,
                old(self).window_ms,
                old(self).max_entries,
                ip@,
                now_ms,
            ),
            allowed == !over_budget(
                budgets_view(old(self).entries@),
                old(self).limit_per_window,
                old(self).window_ms,
                ip@,
                now_ms,
            ),
    {
        let ghost es0 = budgets_view(old(self).entries@);
        proof {
            lemma_ip_idx(es0, ip@, 0);
        }
        let n = self.entries.len();
        let mut i: usize = 0;
        let mut found = false;
        while i < n && !found
            invariant
                i <= n,
                n == self.entries@.len(),
                self == old(self),
                found ==> i < n && es0[i as int].ip == ip@ && ip_idx(es0, ip@, 0) == i as int,
                !found ==> ip_idx(es0, ip@, 0) == ip_idx(es0, ip@, i as nat),
            decreases n - i + (if found { 0int } else { 1int }),
        {
            proof {
                assert(es0[i as int] == self.entries@[i as int]@);
            }
            if crate::text::str_eq(self.entries[i].ip.as_str(), ip) {
                found = true;
            } else {
                proof {
                    assert(ip_idx(es0, ip@, i as nat) == ip_idx(es0, ip@, (i + 1) as nat));
                }
                i += 1;
            }
        }
        if found {
            proof {
                assert(es0[i as int] == self.entries@[i as int]@);
            }
            let e = self.entries.remove(i);
            let ghost mid = budgets_view(self.entries@);
            let within = now_ms < e.window_start_ms || now_ms - e.window_start_ms < self.window_ms;
            if !within {
                // fresh window
                self.entries.insert(
                    i,
                    IpBudget { ip: e.ip, window_start_ms: now_ms, count: 1 },
                );
                proof {
                    assert(budgets_view(self.entries@) =~= es0.update(
                        i as int,
                        IpBudgetView { ip: ip@, window_start_ms: now_ms, count: 1 },
                    ));
                    assert(!over_budget(es0, self.limit_per_window, self.window_ms, ip@, now_ms))
                        by {
                        assert forall|j: int|
                            0 <= j < es0.len() && (#[trigger] es0[j]).ip == ip@ implies !(now_ms
                            < es0[j].window_start_ms + self.window_ms && es0[j].count
                            >= self.limit_per_window) by {
                            if j != i as int {
                                assert(es0[j].ip != es0[i as int].ip);
                            }
                        }
                    }
                }
                true
            } else if e.count < self.limit_per_window {
                let c = e.count + 1;
                self.entries.insert(
                    i,
                    IpBudget { ip: e.ip, window_start_ms: e.window_start_ms, count: c },
                );
                proof {
                    assert(budgets_view(self.entries@) =~= es0.update(
                        i as int,
                        IpBudgetView {
                            ip: es0[i as int].ip,
                            window_start_ms: es0[i as int].window_start_ms,
                            count: (es0[i as int].count + 1) as u64,
                        },
                    ));
                    assert(!over_budget(es0, self.limit_per_window, self.window_ms, ip@, now_ms))
                        by {
                        assert forall|j: int|
                            0 <= j < es0.len() && (#[trigger] es0[j]).ip == ip@ implies !(now_ms
                            < es0[j].window_start_ms + self.window_ms && es0[j].count
                            >= self.limit_per_window) by {
                            if j != i as int {
                                assert(es0[j].ip != es0[i as int].ip);
                            }
                        }
                    }
                }
                true
            } else {
                self.entries.insert(i, e);
                proof {
                    assert(budgets_view(self.entries@) =~= es0);
                    assert(over_budget(es0, self.limit_per_window, self.window_ms, ip@, now_ms));
                }
                false
            }
        } else {
            proof {
                assert(ip_idx(es0, ip@, 0) == -1);
                assert(!over_budget(es0, self.limit_per_window, self.window_ms, ip@, now_ms)) by {
                    assert forall|j: int| 0 <= j < es0.len() implies (#[trigger] es0[j]).ip != ip@
                        by {}
                }
            }
            if self.entries.len() >= self.max_entries && self.entries.len() > 0 {
                let v = self.find_oldest();
                let ghost pre = budgets_view(self.entries@);
                self.entries.remove(v);
                proof {
                    assert(budgets_view(self.entries@) =~= pre.remove(v as int));
                }
            }
            let ghost pre2 = budgets_view(self.entries@);
            self.entries.push(
                IpBudget { ip: ip.to_owned(), window_start_ms: now_ms, count: 1 },
            );
            proof {
                assert(budgets_view(self.entries@) =~= pre2.push(
                    IpBudgetView { ip: ip@, window_start_ms: now_ms, count: 1 },
                ));
                let es1 = limiter_check(
                    es0,
                    self.limit_per_window,
                    self.window_ms,
                    self.max_entries,
                    ip@,
                    now_ms,
                ).0;
                assert(budgets_view(self.entries@) =~= es1);
                assert(limiter_wf(budgets_view(self.entries@), self.max_entries)) by {
                    if es0.len() >= self.max_entries && es0.len() > 0 {
                        let o = oldest_from(es0, 1, 0);
                        lemma_oldest_range(es0, 1, 0);
                        es0.remove_ensures(o);
                        assert forall|a: int, b: int|
                            0 <= a < b < budgets_view(self.entries@).len() implies (
                        #[trigger] budgets_view(self.entries@)[a]).ip != (
                        #[trigger] budgets_view(self.entries@)[b]).ip by {
                            lemma_ip_idx(es0, ip@, 0);
                        }
                    }
                }
            }
            true
        }
    }

    /// Index of the entry with the oldest window (first among ties).
    fn find_oldest(&self) -> (r: usize)
        requires
            self.entries@.len() > 0,
        ensures
            r < self.entries@.len(),
            r as int == oldest_from(budgets_view(self.entries@), 1, 0),
    {
        let ghost es = budgets_view(self.entries@);
        let n = self.entries.len();
        let mut best: usize = 0;
        let mut i: usize = 1;
        while i < n
            invariant
                n == self.entries@.len(),
                es == budgets_view(self.entries@),
                1 <= i <= n,
                best < n,
                best < i,
                oldest_from(es, 1, 0) == oldest_from(es, i as nat, best as int),
            decreases n - i,
        {
            proof {
                assert(es[i as int] == self.entries@[i as int]@);
                assert(es[best as int] == self.entries@[best as int]@);
            }
            if self.entries[i].window_start_ms < self.entries[best].window_start_ms {
                best = i;
            }
            i += 1;
        }
        best
    }
}

} // verus!

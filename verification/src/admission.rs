//! Per-source-IP admission control with fixed one-minute windows.
//!
//! Each source IP owns a [`RateEntry`]: the number of requests admitted
//! since its current window started. A request from an unseen source, or
//! one arriving after its window is spent, is admitted and starts a fresh
//! window; within a live window requests are admitted while the count is
//! under the configured limit and denied (leaving the entry untouched)
//! once it reaches it. Entries are never removed.

use vstd::prelude::*;

verus! {

/// Length of one admission window, in seconds.
pub const WINDOW_SECS: u64 = 60;

/// Per-source bookkeeping: requests admitted since `window_start`.
#[derive(Clone, Copy, PartialEq, Eq, Structural, Debug)]
pub struct RateEntry {
    pub count: u64,
    pub window_start: u64,
}

/// Seconds elapsed since a window started; a clock reading earlier than the
/// window's start counts as no time elapsed.
pub open spec fn spec_elapsed(window_start: u64, now: u64) -> int {
    if now >= window_start {
        now - window_start
    } else {
        0
    }
}

/// A window is spent once strictly more than `WINDOW_SECS` seconds have
/// elapsed since it started.
pub open spec fn spec_window_expired(e: RateEntry, now: u64) -> bool {
    spec_elapsed(e.window_start, now) > WINDOW_SECS
}

/// The admission rule for one source: the decision, and the entry that
/// replaces the old one (the old entry itself where the request is denied).
pub open spec fn spec_admit(entry: Option<RateEntry>, now: u64, max_per_window: u64) -> (
    bool,
    RateEntry,
) {
    match entry {
        None => (true, RateEntry { count: 1, window_start: now }),
        Some(e) => if spec_window_expired(e, now) {
            (true, RateEntry { count: 1, window_start: now })
        } else if e.count < max_per_window {
            (true, RateEntry { count: (e.count + 1) as u64, window_start: e.window_start })
        } else {
            (false, e)
        },
    }
}

/// One admission step as executable code: allow and open a window for an
/// unseen source, allow and reset a spent window, allow and count while
/// under the limit, deny at the limit.
pub fn admit_decision(entry: Option<RateEntry>, now: u64, max_per_window: u64) -> (r: (
    bool,
    RateEntry,
))
    ensures
        r == spec_admit(entry, now, max_per_window),
{
    match entry {
        None => (true, RateEntry { count: 1, window_start: now }),
        Some(e) => {
            let elapsed: u64 = if now >= e.window_start {
                now - e.window_start
            } else {
                0
            };
            if elapsed > WINDOW_SECS {
                (true, RateEntry { count: 1, window_start: now })
            } else if e.count < max_per_window {
                (true, RateEntry { count: e.count + 1, window_start: e.window_start })
            } else {
                (false, e)
            }
        },
    }
}

/// The entry a table holds for a source, if any.
pub open spec fn spec_lookup(m: Map<u128, RateEntry>, ip: u128) -> Option<RateEntry> {
    if m.contains_key(ip) {
        Some(m[ip])
    } else {
        None
    }
}

/// One admission step against a whole table: the decision for `ip`, and the
/// table afterwards.
pub open spec fn spec_table_admit(
    m: Map<u128, RateEntry>,
    ip: u128,
    now: u64,
    max_per_window: u64,
) -> (bool, Map<u128, RateEntry>) {
    let step = spec_admit(spec_lookup(m, ip), now, max_per_window);
    (step.0, m.insert(ip, step.1))
}

/// The association a sequence of key/entry pairs spells out; a later pair
/// for a key shadows an earlier one.
pub open spec fn entries_map(s: Seq<(u128, RateEntry)>) -> Map<u128, RateEntry>
    decreases s.len(),
{
    if s.len() == 0 {
        Map::empty()
    } else {
        entries_map(s.drop_last()).insert(s.last().0, s.last().1)
    }
}

/// No two pairs carry the same key.
pub open spec fn keys_unique(s: Seq<(u128, RateEntry)>) -> bool {
    forall|i: int, j: int| 0 <= i < j < s.len() ==> (#[trigger] s[i]).0 != (#[trigger] s[j]).0
}

proof fn lemma_entries_map_contains(s: Seq<(u128, RateEntry)>, ip: u128)
    ensures
        entries_map(s).contains_key(ip) <==> exists|i: int|
            0 <= i < s.len() && (#[trigger] s[i]).0 == ip,
    decreases s.len(),
{
    if s.len() > 0 {
        lemma_entries_map_contains(s.drop_last(), ip);
        if s.last().0 == ip {
            assert(s[s.len() - 1].0 == ip);
        } else {
            if entries_map(s).contains_key(ip) {
                let i = choose|i: int|
                    0 <= i < s.drop_last().len() && (#[trigger] s.drop_last()[i]).0 == ip;
                assert(s[i].0 == ip);
            }
            if exists|i: int| 0 <= i < s.len() && (#[trigger] s[i]).0 == ip {
                let i = choose|i: int| 0 <= i < s.len() && (#[trigger] s[i]).0 == ip;
                assert(i < s.len() - 1);
                assert(s.drop_last()[i].0 == ip);
            }
        }
    }
}

proof fn lemma_entries_map_index(s: Seq<(u128, RateEntry)>, i: int)
    requires
        keys_unique(s),
        0 <= i < s.len(),
    ensures
        entries_map(s).contains_key(s[i].0),
        entries_map(s)[s[i].0] == s[i].1,
    decreases s.len(),
{
    if i < s.len() - 1 {
        assert(keys_unique(s.drop_last())) by {
            assert forall|p: int, q: int|
                0 <= p < q < s.drop_last().len() implies (#[trigger] s.drop_last()[p]).0 != (
            #[trigger] s.drop_last()[q]).0 by {
                assert(s[p].0 != s[q].0);
            }
        }
        lemma_entries_map_index(s.drop_last(), i);
        assert(s.drop_last()[i] == s[i]);
        assert(s[i].0 != s[s.len() - 1].0);
    }
}

proof fn lemma_entries_map_update(s: Seq<(u128, RateEntry)>, i: int, v: RateEntry)
    requires
        keys_unique(s),
        0 <= i < s.len(),
    ensures
        entries_map(s.update(i, (s[i].0, v))) == entries_map(s).insert(s[i].0, v),
    decreases s.len(),
{
    let t = s.update(i, (s[i].0, v));
    if i == s.len() - 1 {
        assert(t.drop_last() =~= s.drop_last());
        assert(t.last() == (s[i].0, v));
        assert(entries_map(t) =~= entries_map(s).insert(s[i].0, v));
    } else {
        assert(keys_unique(s.drop_last())) by {
            assert forall|p: int, q: int|
                0 <= p < q < s.drop_last().len() implies (#[trigger] s.drop_last()[p]).0 != (
            #[trigger] s.drop_last()[q]).0 by {
                assert(s[p].0 != s[q].0);
            }
        }
        assert(s.drop_last()[i] == s[i]);
        lemma_entries_map_update(s.drop_last(), i, v);
        assert(t.drop_last() =~= s.drop_last().update(i, (s[i].0, v)));
        assert(t.last() == s.last());
        assert(s[i].0 != s.last().0);
        assert(entries_map(t) =~= entries_map(s).insert(s[i].0, v));
    }
}

proof fn lemma_entries_map_push(s: Seq<(u128, RateEntry)>, ip: u128, v: RateEntry)
    ensures
        entries_map(s.push((ip, v))) == entries_map(s).insert(ip, v),
{
    assert(s.push((ip, v)).drop_last() =~= s);
    assert(s.push((ip, v)).last() == (ip, v));
}

/// The admission table: one entry per source IP (IPv4 or IPv6, as a 128-bit
/// key), checked and updated one request at a time. Entries are never
/// removed; the table grows with the number of distinct sources seen.
pub struct AdmissionTable {
    max_per_window: u64,
    entries: Vec<(u128, RateEntry)>,
}

impl AdmissionTable {
    /// The mapping from source IP to its entry.
    pub closed spec fn table(&self) -> Map<u128, RateEntry> {
        entries_map(self.entries@)
    }

    /// The configured per-window limit.
    pub closed spec fn limit(&self) -> u64 {
        self.max_per_window
    }

    /// Internal invariant: one entry per source.
    pub closed spec fn well_formed(&self) -> bool {
        keys_unique(self.entries@)
    }

    /// An empty table with the given per-window limit.
    pub fn new(max_per_window: u64) -> (t: Self)
        ensures
            t.well_formed(),
            t.limit() == max_per_window,
            t.table() == Map::<u128, RateEntry>::empty(),
    {
        AdmissionTable { max_per_window, entries: Vec::new() }
    }

    /// The configured per-window limit.
    pub fn max_per_window(&self) -> (m: u64)
        ensures
            m == self.limit(),
    {
        self.max_per_window
    }

    fn find_index(entries: &Vec<(u128, RateEntry)>, ip: u128) -> (r: Option<usize>)
        ensures
            match r {
                Some(i) => i < entries@.len() && entries@[i as int].0 == ip,
                None => forall|j: int| 0 <= j < entries@.len() ==> (#[trigger] entries@[j]).0 != ip,
            },
    {
        let mut i: usize = 0;
        while i < entries.len()
            invariant
                i <= entries@.len(),
                forall|j: int| 0 <= j < i ==> (#[trigger] entries@[j]).0 != ip,
            decreases entries@.len() - i,
        {
            if entries[i].0 == ip {
                return Some(i);
            }
            i = i + 1;
        }
        None
    }

    /// Decide one request from `ip` arriving at `now` (in seconds): apply
    /// the admission rule to the source's current entry, record the new
    /// entry, and report the decision.
    pub fn admit_request(&mut self, ip: u128, now: u64) -> (allowed: bool)
        requires
            old(self).well_formed(),
        ensures
            final(self).well_formed(),
            final(self).limit() == old(self).limit(),
            allowed == spec_table_admit(old(self).table(), ip, now, old(self).limit()).0,
            final(self).table() == spec_table_admit(old(self).table(), ip, now, old(self).limit()).1,
    {
        let ghost s0 = self.entries@;
        match Self::find_index(&self.entries, ip) {
            Some(i) => {
                proof {
                    lemma_entries_map_index(s0, i as int);
                }
                let e = self.entries[i].1;
                let (allowed, fresh) = admit_decision(Some(e), now, self.max_per_window);
                self.entries[i] = (ip, fresh);
                proof {
                    lemma_entries_map_update(s0, i as int, fresh);
                    assert(self.entries@ =~= s0.update(i as int, (ip, fresh)));
                    assert forall|p: int, q: int|
                        0 <= p < q < self.entries@.len() implies (#[trigger] self.entries@[p]).0
                        != (#[trigger] self.entries@[q]).0 by {
                        assert(s0[p].0 != s0[q].0);
                    }
                }
                allowed
            },
            None => {
                proof {
                    lemma_entries_map_contains(s0, ip);
                }
                let (allowed, fresh) = admit_decision(None, now, self.max_per_window);
                self.entries.push((ip, fresh));
                proof {
                    lemma_entries_map_push(s0, ip, fresh);
                    assert forall|p: int, q: int|
                        0 <= p < q < self.entries@.len() implies (#[trigger] self.entries@[p]).0
                        != (#[trigger] self.entries@[q]).0 by {
                        if q < s0.len() {
                            assert(s0[p].0 != s0[q].0);
                        } else {
                            assert(s0[p].0 != ip);
                        }
                    }
                }
                allowed
            },
        }
    }
}

/// The entry after a burst of requests from one source arriving at the
/// given times, starting from `entry`.
pub open spec fn spec_run_entry(
    entry: Option<RateEntry>,
    times: Seq<u64>,
    max_per_window: u64,
) -> Option<RateEntry>
    decreases times.len(),
{
    if times.len() == 0 {
        entry
    } else {
        Some(
            spec_admit(
                spec_run_entry(entry, times.drop_last(), max_per_window),
                times.last(),
                max_per_window,
            ).1,
        )
    }
}

/// The decision for the request at position `n` of such a burst.
pub open spec fn spec_decision_at(
    entry: Option<RateEntry>,
    times: Seq<u64>,
    max_per_window: u64,
    n: int,
) -> bool {
    spec_admit(spec_run_entry(entry, times.take(n), max_per_window), times[n], max_per_window).0
}

proof fn lemma_run_entry_in_window(times: Seq<u64>, max_per_window: u64, k: int)
    requires
        max_per_window >= 1,
        1 <= k <= times.len(),
        forall|i: int|
            0 <= i < times.len() ==> times[0] <= #[trigger] times[i] && times[i] - times[0]
                <= WINDOW_SECS,
    ensures
        spec_run_entry(None, times.take(k), max_per_window) == Some(
            RateEntry {
                count: vstd::math::min(k, max_per_window as int) as u64,
                window_start: times[0],
            },
        ),
    decreases k,
{
    if k == 1 {
        assert(times.take(1).drop_last() =~= times.take(0));
        assert(times.take(1).last() == times[0]);
    } else {
        lemma_run_entry_in_window(times, max_per_window, k - 1);
        assert(times.take(k).drop_last() =~= times.take(k - 1));
        assert(times.take(k).last() == times[k - 1]);
        let e = RateEntry {
            count: vstd::math::min(k - 1, max_per_window as int) as u64,
            window_start: times[0],
        };
        assert(times[0] <= times[k - 1] && times[k - 1] - times[0] <= WINDOW_SECS);
        assert(!spec_window_expired(e, times[k - 1]));
    }
}

/// Law: within one window, starting from an unseen source, the request at
/// position `n` of the burst (the `n + 1`-st request) is admitted exactly
/// when `n + 1 <= limit`; the one after the limit is denied.
pub proof fn lemma_admission_within_window(times: Seq<u64>, max_per_window: u64, n: int)
    requires
        max_per_window >= 1,
        0 <= n < times.len(),
        forall|i: int|
            0 <= i < times.len() ==> times[0] <= #[trigger] times[i] && times[i] - times[0]
                <= WINDOW_SECS,
    ensures
        spec_decision_at(None, times, max_per_window, n) == (n + 1 <= max_per_window),
{
    if n == 0 {
        assert(times.take(0).len() == 0);
    } else {
        lemma_run_entry_in_window(times, max_per_window, n);
        let e = RateEntry {
            count: vstd::math::min(n, max_per_window as int) as u64,
            window_start: times[0],
        };
        assert(times[0] <= times[n] && times[n] - times[0] <= WINDOW_SECS);
        assert(!spec_window_expired(e, times[n]));
    }
}

/// Law: once a window is spent, the next request from that source is
/// admitted regardless of the old count and starts a fresh window with a
/// count of one.
pub proof fn lemma_window_rollover(e: RateEntry, now: u64, max_per_window: u64)
    requires
        spec_window_expired(e, now),
    ensures
        spec_admit(Some(e), now, max_per_window) == (
            true,
            RateEntry { count: 1, window_start: now },
        ),
{
}

/// Every count a table holds is within the limit.
pub open spec fn counts_within(m: Map<u128, RateEntry>, max_per_window: u64) -> bool {
    forall|ip: u128| m.contains_key(ip) ==> (#[trigger] m[ip]).count <= max_per_window
}

/// Law: admission steps are applied to a source's entry one at a time, and
/// no step pushes any count past the limit — so the admitted count a window
/// accumulates never exceeds the limit, and no update is lost.
pub proof fn lemma_no_count_exceeds_limit(
    m: Map<u128, RateEntry>,
    ip: u128,
    now: u64,
    max_per_window: u64,
)
    requires
        max_per_window >= 1,
        counts_within(m, max_per_window),
    ensures
        counts_within(spec_table_admit(m, ip, now, max_per_window).1, max_per_window),
{
    let after = spec_table_admit(m, ip, now, max_per_window).1;
    assert forall|k: u128| after.contains_key(k) implies (#[trigger] after[k]).count
        <= max_per_window by {
        if k != ip {
            assert(m.contains_key(k) && after[k] == m[k]);
        }
    }
}

/// Law: steps for distinct sources are independent: a step for one source
/// changes neither another source's entry nor its decision, and the two
/// steps commute.
pub proof fn lemma_distinct_sources_independent(
    m: Map<u128, RateEntry>,
    ip1: u128,
    ip2: u128,
    now1: u64,
    now2: u64,
    max_per_window: u64,
)
    requires
        ip1 != ip2,
    ensures
        spec_table_admit(
            spec_table_admit(m, ip1, now1, max_per_window).1,
            ip2,
            now2,
            max_per_window,
        ).0 == spec_table_admit(m, ip2, now2, max_per_window).0,
        spec_table_admit(
            spec_table_admit(m, ip1, now1, max_per_window).1,
            ip2,
            now2,
            max_per_window,
        ).1 == spec_table_admit(
            spec_table_admit(m, ip2, now2, max_per_window).1,
            ip1,
            now1,
            max_per_window,
        ).1,
{
    let m1 = spec_table_admit(m, ip1, now1, max_per_window).1;
    let m2 = spec_table_admit(m, ip2, now2, max_per_window).1;
    assert(spec_lookup(m1, ip2) == spec_lookup(m, ip2));
    assert(spec_lookup(m2, ip1) == spec_lookup(m, ip1));
    assert(spec_table_admit(m1, ip2, now2, max_per_window).1 =~= spec_table_admit(
        m2,
        ip1,
        now1,
        max_per_window,
    ).1);
}

} // verus!

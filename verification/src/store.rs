//! The per-guild durable state: configuration rows and daily voice-time
//! counters.
//!
//! This models the durable keyed store the bot persists its daily counters
//! in: one row per `(guild, day)`, created on first use with zero and then
//! only ever incremented, in one read-modify-write step whose new total is
//! handed back to the caller. The storage engine itself lives outside the
//! crate; it receives and returns the same plain values these operations
//! do, and its single-statement increment realizes `add_elapsed` so that
//! concurrent sessions ending close together cannot lose updates.
//!
//! Durations are carried in tenths of a second, as everywhere else in the
//! crate.

use vstd::prelude::*;
use crate::daykey::DayKey;

verus! {

/// Per-guild configuration: where the daily report goes and where the
/// per-session reports go. An absent row means both unset.
#[derive(Clone, Copy, Debug)]
pub struct ServerConfig {
    pub daily_log_channel: Option<u64>,
    pub vc_logs_channel: Option<u64>,
}

/// The configuration rows and the counter rows, each keyed by guild (the
/// counters also by day bucket).
pub struct Store {
    servers: Vec<(u64, ServerConfig)>,
    days: Vec<(u64, DayKey, u64)>,
}

/// No guild appears twice among the configuration rows.
pub open spec fn unique_servers(s: Seq<(u64, ServerConfig)>) -> bool {
    forall|i: int, j: int| 0 <= i < j < s.len() ==> #[trigger] s[i].0 != #[trigger] s[j].0
}

/// The configuration row of one guild, if it exists.
pub open spec fn server_row(s: Seq<(u64, ServerConfig)>, g: u64) -> Option<ServerConfig>
    decreases s.len(),
{
    if s.len() == 0 {
        None
    } else if s[0].0 == g {
        Some(s[0].1)
    } else {
        server_row(s.drop_first(), g)
    }
}

/// The daily-log channel a configuration states; an absent row means unset.
pub open spec fn daily_of(c: Option<ServerConfig>) -> Option<u64> {
    match c {
        Some(k) => k.daily_log_channel,
        None => None,
    }
}

/// The session-log channel a configuration states; an absent row means unset.
pub open spec fn vc_of(c: Option<ServerConfig>) -> Option<u64> {
    match c {
        Some(k) => k.vc_logs_channel,
        None => None,
    }
}

proof fn lemma_server_row_at(s: Seq<(u64, ServerConfig)>, i: int)
    requires
        unique_servers(s),
        0 <= i < s.len(),
    ensures
        server_row(s, s[i].0) == Some(s[i].1),
    decreases s.len(),
{
    if i > 0 {
        let b = s.drop_first();
        assert(forall|k: int| 0 <= k < b.len() ==> b[k] == s[k + 1]);
        assert(unique_servers(b));
        lemma_server_row_at(b, i - 1);
        assert(s[0].0 != s[i].0);
    }
}

proof fn lemma_server_row_update(s: Seq<(u64, ServerConfig)>, i: int, v: ServerConfig)
    requires
        unique_servers(s),
        0 <= i < s.len(),
    ensures
        forall|g: u64|
            #[trigger] server_row(s.update(i, (s[i].0, v)), g) == (if g == s[i].0 {
                Some(v)
            } else {
                server_row(s, g)
            }),
    decreases s.len(),
{
    let t = s.update(i, (s[i].0, v));
    if i == 0 {
        assert(t.drop_first() =~= s.drop_first());
        assert forall|g: u64|
            #[trigger] server_row(t, g) == (if g == s[0].0 {
                Some(v)
            } else {
                server_row(s, g)
            }) by {
            assert(t[0] == (s[0].0, v));
        }
    } else {
        let b = s.drop_first();
        assert(forall|k: int| 0 <= k < b.len() ==> b[k] == s[k + 1]);
        assert(unique_servers(b));
        lemma_server_row_update(b, i - 1, v);
        assert(t.drop_first() =~= b.update(i - 1, (b[i - 1].0, v)));
        assert forall|g: u64|
            #[trigger] server_row(t, g) == (if g == s[i].0 {
                Some(v)
            } else {
                server_row(s, g)
            }) by {
            assert(t[0] == s[0]);
            assert(server_row(b.update(i - 1, (b[i - 1].0, v)), g) == (if g == b[i - 1].0 {
                Some(v)
            } else {
                server_row(b, g)
            }));
            if g == s[i].0 {
                assert(s[0].0 != s[i].0);
            }
        }
    }
}

proof fn lemma_server_row_push(s: Seq<(u64, ServerConfig)>, p: (u64, ServerConfig))
    ensures
        forall|g: u64|
            #[trigger] server_row(s.push(p), g) == (if server_row(s, g) is Some {
                server_row(s, g)
            } else if g == p.0 {
                Some(p.1)
            } else {
                None
            }),
    decreases s.len(),
{
    let t = s.push(p);
    if s.len() == 0 {
        assert forall|g: u64|
            #[trigger] server_row(t, g) == (if server_row(s, g) is Some {
                server_row(s, g)
            } else if g == p.0 {
                Some(p.1)
            } else {
                None
            }) by {
            assert(t[0] == p);
            assert(t.drop_first() =~= s);
        }
    } else {
        lemma_server_row_push(s.drop_first(), p);
        assert(t.drop_first() =~= s.drop_first().push(p));
        assert(t[0] == s[0]);
        assert forall|g: u64|
            #[trigger] server_row(t, g) == (if server_row(s, g) is Some {
                server_row(s, g)
            } else if g == p.0 {
                Some(p.1)
            } else {
                None
            }) by {
            assert(server_row(s.drop_first().push(p), g) == (if server_row(
                s.drop_first(),
                g,
            ) is Some {
                server_row(s.drop_first(), g)
            } else if g == p.0 {
                Some(p.1)
            } else {
                None
            }));
        }
    }
}

proof fn lemma_server_row_some_index(s: Seq<(u64, ServerConfig)>, g: u64)
    requires
        server_row(s, g) is Some,
    ensures
        exists|j: int| 0 <= j < s.len() && #[trigger] s[j].0 == g,
    decreases s.len(),
{
    if s.len() > 0 {
        if s[0].0 == g {
        } else {
            lemma_server_row_some_index(s.drop_first(), g);
            let j = choose|j: int|
                0 <= j < s.drop_first().len() && #[trigger] s.drop_first()[j].0 == g;
            assert(s[j + 1].0 == g);
        }
    }
}

fn find_server(servers: &Vec<(u64, ServerConfig)>, g: u64) -> (r: Option<usize>)
    ensures
        match r {
            Some(i) => i < servers@.len() && servers@[i as int].0 == g,
            None => forall|j: int| 0 <= j < servers@.len() ==> servers@[j].0 != g,
        },
{
    let mut i: usize = 0;
    while i < servers.len()
        invariant
            0 <= i <= servers.len(),
            forall|j: int| 0 <= j < i ==> servers@[j].0 != g,
        decreases servers.len() - i,
    {
        if servers[i].0 == g {
            return Some(i);
        }
        i = i + 1;
    }
    None
}

/// No `(guild, day)` key appears twice.
pub open spec fn unique_days(s: Seq<(u64, DayKey, u64)>) -> bool {
    forall|i: int, j: int|
        0 <= i < j < s.len() ==> !(#[trigger] s[i].0 == #[trigger] s[j].0 && s[i].1 == s[j].1)
}

/// The stored total for one `(guild, day)` key, if its row exists.
pub open spec fn day_total(s: Seq<(u64, DayKey, u64)>, g: u64, d: DayKey) -> Option<u64>
    decreases s.len(),
{
    if s.len() == 0 {
        None
    } else if s[0].0 == g && s[0].1 == d {
        Some(s[0].2)
    } else {
        day_total(s.drop_first(), g, d)
    }
}

proof fn lemma_day_total_at(s: Seq<(u64, DayKey, u64)>, i: int)
    requires
        unique_days(s),
        0 <= i < s.len(),
    ensures
        day_total(s, s[i].0, s[i].1) == Some(s[i].2),
    decreases s.len(),
{
    if i > 0 {
        let b = s.drop_first();
        assert(forall|k: int| 0 <= k < b.len() ==> b[k] == s[k + 1]);
        assert(unique_days(b));
        lemma_day_total_at(b, i - 1);
        assert(!(s[0].0 == s[i].0 && s[0].1 == s[i].1));
    }
}

proof fn lemma_day_total_update(s: Seq<(u64, DayKey, u64)>, i: int, v: u64)
    requires
        unique_days(s),
        0 <= i < s.len(),
    ensures
        forall|g: u64, d: DayKey|
            #[trigger] day_total(s.update(i, (s[i].0, s[i].1, v)), g, d) == (if g == s[i].0
                && d == s[i].1 {
                Some(v)
            } else {
                day_total(s, g, d)
            }),
    decreases s.len(),
{
    let t = s.update(i, (s[i].0, s[i].1, v));
    if i == 0 {
        assert(t.drop_first() =~= s.drop_first());
        assert forall|g: u64, d: DayKey|
            #[trigger] day_total(t, g, d) == (if g == s[0].0 && d == s[0].1 {
                Some(v)
            } else {
                day_total(s, g, d)
            }) by {
            assert(t[0] == (s[0].0, s[0].1, v));
        }
    } else {
        let b = s.drop_first();
        assert(forall|k: int| 0 <= k < b.len() ==> b[k] == s[k + 1]);
        assert(unique_days(b));
        lemma_day_total_update(b, i - 1, v);
        assert(t.drop_first() =~= b.update(i - 1, (b[i - 1].0, b[i - 1].1, v)));
        assert forall|g: u64, d: DayKey|
            #[trigger] day_total(t, g, d) == (if g == s[i].0 && d == s[i].1 {
                Some(v)
            } else {
                day_total(s, g, d)
            }) by {
            assert(t[0] == s[0]);
            assert(day_total(b.update(i - 1, (b[i - 1].0, b[i - 1].1, v)), g, d) == (if g
                == b[i - 1].0 && d == b[i - 1].1 {
                Some(v)
            } else {
                day_total(b, g, d)
            }));
            if g == s[i].0 && d == s[i].1 {
                assert(!(s[0].0 == s[i].0 && s[0].1 == s[i].1));
            }
        }
    }
}

proof fn lemma_day_total_push(s: Seq<(u64, DayKey, u64)>, p: (u64, DayKey, u64))
    ensures
        forall|g: u64, d: DayKey|
            #[trigger] day_total(s.push(p), g, d) == (if day_total(s, g, d) is Some {
                day_total(s, g, d)
            } else if g == p.0 && d == p.1 {
                Some(p.2)
            } else {
                None
            }),
    decreases s.len(),
{
    let t = s.push(p);
    if s.len() == 0 {
        assert forall|g: u64, d: DayKey|
            #[trigger] day_total(t, g, d) == (if day_total(s, g, d) is Some {
                day_total(s, g, d)
            } else if g == p.0 && d == p.1 {
                Some(p.2)
            } else {
                None
            }) by {
            assert(t[0] == p);
            assert(t.drop_first() =~= s);
        }
    } else {
        lemma_day_total_push(s.drop_first(), p);
        assert(t.drop_first() =~= s.drop_first().push(p));
        assert(t[0] == s[0]);
        assert forall|g: u64, d: DayKey|
            #[trigger] day_total(t, g, d) == (if day_total(s, g, d) is Some {
                day_total(s, g, d)
            } else if g == p.0 && d == p.1 {
                Some(p.2)
            } else {
                None
            }) by {
            assert(day_total(s.drop_first().push(p), g, d) == (if day_total(
                s.drop_first(),
                g,
                d,
            ) is Some {
                day_total(s.drop_first(), g, d)
            } else if g == p.0 && d == p.1 {
                Some(p.2)
            } else {
                None
            }));
        }
    }
}

fn find_day(days: &Vec<(u64, DayKey, u64)>, g: u64, d: DayKey) -> (r: Option<usize>)
    ensures
        match r {
            Some(i) => i < days@.len() && days@[i as int].0 == g && days@[i as int].1 == d,
            None => forall|j: int|
                0 <= j < days@.len() ==> !(#[trigger] days@[j].0 == g && days@[j].1 == d),
        },
{
    let mut i: usize = 0;
    while i < days.len()
        invariant
            0 <= i <= days.len(),
            forall|j: int| 0 <= j < i ==> !(#[trigger] days@[j].0 == g && days@[j].1 == d),
        decreases days.len() - i,
    {
        if days[i].0 == g && days[i].1 == d {
            return Some(i);
        }
        i = i + 1;
    }
    None
}

impl Store {
    /// The invariant: one row per guild, one per `(guild, day)` key.
    pub closed spec fn wf(self) -> bool {
        &&& unique_days(self.days@)
        &&& unique_servers(self.servers@)
    }

    /// The stored total for a key, if its row exists.
    pub closed spec fn total_of(self, g: u64, d: DayKey) -> Option<u64> {
        day_total(self.days@, g, d)
    }

    /// The stored configuration of a guild, if its row exists.
    pub closed spec fn config_of(self, g: u64) -> Option<ServerConfig> {
        server_row(self.servers@, g)
    }

    /// An empty store: no rows at all.
    pub fn new() -> (r: Store)
        ensures
            r.wf(),
            forall|g: u64, d: DayKey| #[trigger] r.total_of(g, d) is None,
            forall|g: u64| #[trigger] r.config_of(g) is None,
    {
        Store { servers: Vec::new(), days: Vec::new() }
    }

    /// Create-if-absent for a guild's configuration row, both fields unset;
    /// an existing row is untouched.
    fn ensure_server(&mut self, guild: u64)
        requires
            old(self).wf(),
        ensures
            final(self).wf(),
            final(self).days@ == old(self).days@,
            server_row(final(self).servers@, guild) == (match server_row(
                old(self).servers@,
                guild,
            ) {
                Some(c) => Some(c),
                None => Some(ServerConfig { daily_log_channel: None, vc_logs_channel: None }),
            }),
            forall|g2: u64|
                g2 != guild ==> #[trigger] server_row(final(self).servers@, g2) == server_row(
                    old(self).servers@,
                    g2,
                ),
    {
        match find_server(&self.servers, guild) {
            Some(i) => {
                proof {
                    lemma_server_row_at(self.servers@, i as int);
                }
            },
            None => {
                proof {
                    if server_row(self.servers@, guild) is Some {
                        lemma_server_row_some_index(self.servers@, guild);
                    }
                    lemma_server_row_push(
                        self.servers@,
                        (guild, ServerConfig { daily_log_channel: None, vc_logs_channel: None }),
                    );
                }
                let ghost before = self.servers@;
                self.servers.push(
                    (guild, ServerConfig { daily_log_channel: None, vc_logs_channel: None }),
                );
                proof {
                    assert(forall|k: int| 0 <= k < before.len() ==> self.servers@[k] == before[k]);
                    assert forall|x: int, y: int|
                        0 <= x < y < self.servers@.len() implies #[trigger] self.servers@[x].0
                        != #[trigger] self.servers@[y].0 by {
                        if y == self.servers@.len() - 1 {
                            assert(before[x].0 != guild);
                        }
                    }
                }
            },
        }
    }

    /// Stores a new configuration for a guild whose row exists at index `i`.
    fn set_config_at(&mut self, i: usize, guild: u64, c: ServerConfig)
        requires
            old(self).wf(),
            i < old(self).servers@.len(),
            old(self).servers@[i as int].0 == guild,
        ensures
            final(self).wf(),
            final(self).days@ == old(self).days@,
            server_row(final(self).servers@, guild) == Some(c),
            forall|g2: u64|
                g2 != guild ==> #[trigger] server_row(final(self).servers@, g2) == server_row(
                    old(self).servers@,
                    g2,
                ),
    {
        proof {
            lemma_server_row_update(self.servers@, i as int, c);
        }
        let ghost before = self.servers@;
        self.servers.set(i, (guild, c));
        proof {
            assert(self.servers@ =~= before.update(i as int, (before[i as int].0, c)));
            assert(forall|x: int, y: int|
                0 <= x < y < self.servers@.len() ==> self.servers@[x].0 == before[x].0
                    && self.servers@[y].0 == before[y].0);
        }
    }

    /// Points a guild's daily report at a channel, creating the row if it
    /// does not exist; the session-log setting and every other guild's row
    /// and counter are untouched.
    pub fn set_daily_log_channel(&mut self, guild: u64, ch: u64)
        requires
            old(self).wf(),
        ensures
            final(self).wf(),
            final(self).config_of(guild) == Some(ServerConfig {
                daily_log_channel: Some(ch),
                vc_logs_channel: vc_of(old(self).config_of(guild)),
            }),
            forall|g2: u64|
                g2 != guild ==> #[trigger] final(self).config_of(g2) == old(self).config_of(g2),
            forall|g2: u64, d: DayKey|
                #[trigger] final(self).total_of(g2, d) == old(self).total_of(g2, d),
    {
        self.ensure_server(guild);
        match find_server(&self.servers, guild) {
            Some(i) => {
                proof {
                    lemma_server_row_at(self.servers@, i as int);
                }
                let vc = self.servers[i].1.vc_logs_channel;
                self.set_config_at(
                    i,
                    guild,
                    ServerConfig { daily_log_channel: Some(ch), vc_logs_channel: vc },
                );
            },
            None => {
                proof {
                    lemma_server_row_some_index(self.servers@, guild);
                }
                unreached()
            },
        }
    }

    /// Points a guild's per-session reports at a channel, creating the row
    /// if it does not exist; the daily-report setting and every other
    /// guild's row and counter are untouched.
    pub fn set_vc_log_channel(&mut self, guild: u64, ch: u64)
        requires
            old(self).wf(),
        ensures
            final(self).wf(),
            final(self).config_of(guild) == Some(ServerConfig {
                daily_log_channel: daily_of(old(self).config_of(guild)),
                vc_logs_channel: Some(ch),
            }),
            forall|g2: u64|
                g2 != guild ==> #[trigger] final(self).config_of(g2) == old(self).config_of(g2),
            forall|g2: u64, d: DayKey|
                #[trigger] final(self).total_of(g2, d) == old(self).total_of(g2, d),
    {
        self.ensure_server(guild);
        match find_server(&self.servers, guild) {
            Some(i) => {
                proof {
                    lemma_server_row_at(self.servers@, i as int);
                }
                let daily = self.servers[i].1.daily_log_channel;
                self.set_config_at(
                    i,
                    guild,
                    ServerConfig { daily_log_channel: daily, vc_logs_channel: Some(ch) },
                );
            },
            None => {
                proof {
                    lemma_server_row_some_index(self.servers@, guild);
                }
                unreached()
            },
        }
    }

    /// Unsets a guild's daily report. As stored, this touches only a row
    /// that exists: a guild without a row already has nothing set, so the
    /// states are equivalent.
    pub fn disable_daily_log(&mut self, guild: u64)
        requires
            old(self).wf(),
        ensures
            final(self).wf(),
            final(self).config_of(guild) == (match old(self).config_of(guild) {
                Some(c) => Some(ServerConfig {
                    daily_log_channel: None,
                    vc_logs_channel: c.vc_logs_channel,
                }),
                None => None,
            }),
            forall|g2: u64|
                g2 != guild ==> #[trigger] final(self).config_of(g2) == old(self).config_of(g2),
            forall|g2: u64, d: DayKey|
                #[trigger] final(self).total_of(g2, d) == old(self).total_of(g2, d),
    {
        match find_server(&self.servers, guild) {
            Some(i) => {
                proof {
                    lemma_server_row_at(self.servers@, i as int);
                }
                let vc = self.servers[i].1.vc_logs_channel;
                self.set_config_at(
                    i,
                    guild,
                    ServerConfig { daily_log_channel: None, vc_logs_channel: vc },
                );
            },
            None => {
                proof {
                    if server_row(self.servers@, guild) is Some {
                        lemma_server_row_some_index(self.servers@, guild);
                    }
                }
            },
        }
    }

    /// Unsets a guild's per-session reports; the counterpart of
    /// `disable_daily_log`.
    pub fn disable_vc_logs(&mut self, guild: u64)
        requires
            old(self).wf(),
        ensures
            final(self).wf(),
            final(self).config_of(guild) == (match old(self).config_of(guild) {
                Some(c) => Some(ServerConfig {
                    daily_log_channel: c.daily_log_channel,
                    vc_logs_channel: None,
                }),
                None => None,
            }),
            forall|g2: u64|
                g2 != guild ==> #[trigger] final(self).config_of(g2) == old(self).config_of(g2),
            forall|g2: u64, d: DayKey|
                #[trigger] final(self).total_of(g2, d) == old(self).total_of(g2, d),
    {
        match find_server(&self.servers, guild) {
            Some(i) => {
                proof {
                    lemma_server_row_at(self.servers@, i as int);
                }
                let daily = self.servers[i].1.daily_log_channel;
                self.set_config_at(
                    i,
                    guild,
                    ServerConfig { daily_log_channel: daily, vc_logs_channel: None },
                );
            },
            None => {
                proof {
                    if server_row(self.servers@, guild) is Some {
                        lemma_server_row_some_index(self.servers@, guild);
                    }
                }
            },
        }
    }

    /// The channel a guild's daily report goes to; an absent row means
    /// unset, silently.
    pub fn daily_log_channel(&self, guild: u64) -> (r: Option<u64>)
        requires
            self.wf(),
        ensures
            r == daily_of(self.config_of(guild)),
    {
        match find_server(&self.servers, guild) {
            Some(i) => {
                proof {
                    lemma_server_row_at(self.servers@, i as int);
                }
                self.servers[i].1.daily_log_channel
            },
            None => {
                proof {
                    if server_row(self.servers@, guild) is Some {
                        lemma_server_row_some_index(self.servers@, guild);
                    }
                }
                None
            },
        }
    }

    /// The channel a guild's per-session reports go to; an absent row means
    /// unset, silently.
    pub fn vc_logs_channel(&self, guild: u64) -> (r: Option<u64>)
        requires
            self.wf(),
        ensures
            r == vc_of(self.config_of(guild)),
    {
        match find_server(&self.servers, guild) {
            Some(i) => {
                proof {
                    lemma_server_row_at(self.servers@, i as int);
                }
                self.servers[i].1.vc_logs_channel
            },
            None => {
                proof {
                    if server_row(self.servers@, guild) is Some {
                        lemma_server_row_some_index(self.servers@, guild);
                    }
                }
                None
            },
        }
    }

    /// Reads one counter without touching it; an absent row reads as `None`.
    pub fn read(&self, guild: u64, day: DayKey) -> (r: Option<u64>)
        requires
            self.wf(),
        ensures
            r == self.total_of(guild, day),
    {
        match find_day(&self.days, guild, day) {
            Some(i) => {
                proof {
                    lemma_day_total_at(self.days@, i as int);
                }
                Some(self.days[i].2)
            },
            None => {
                proof {
                    if day_total(self.days@, guild, day) is Some {
                        lemma_day_total_some_index(self.days@, guild, day);
                    }
                }
                None
            },
        }
    }

    /// Adds elapsed voice time to one day's counter, creating the row with
    /// zero first if it does not exist, and returns the new total — the
    /// create-if-absent-then-increment step the store performs atomically.
    ///
    /// Every other `(guild, day)` counter is untouched.
    pub fn add_elapsed(&mut self, guild: u64, day: DayKey, tenths: u64) -> (total: u64)
        requires
            old(self).wf(),
            (match old(self).total_of(guild, day) {
                Some(t) => t + tenths <= u64::MAX,
                None => true,
            }),
        ensures
            final(self).wf(),
            total == (match old(self).total_of(guild, day) {
                Some(t) => t + tenths,
                None => tenths as int,
            }),
            final(self).total_of(guild, day) == Some(total),
            forall|g: u64, d: DayKey|
                !(g == guild && d == day) ==> #[trigger] final(self).total_of(g, d) == old(
                    self,
                ).total_of(g, d),
            final(self).config_of(guild) == (match old(self).config_of(guild) {
                Some(c) => Some(c),
                None => Some(ServerConfig { daily_log_channel: None, vc_logs_channel: None }),
            }),
            forall|g2: u64|
                g2 != guild ==> #[trigger] final(self).config_of(g2) == old(self).config_of(g2),
    {
        self.ensure_server(guild);
        match find_day(&self.days, guild, day) {
            Some(i) => {
                proof {
                    lemma_day_total_at(self.days@, i as int);
                    lemma_day_total_update(self.days@, i as int, (self.days@[i as int].2 + tenths) as u64);
                }
                let t = self.days[i].2 + tenths;
                let ghost before = self.days@;
                self.days.set(i, (guild, day, t));
                proof {
                    assert(self.days@ =~= before.update(i as int, (before[i as int].0, before[i as int].1, t)));
                    assert(forall|x: int, y: int|
                        0 <= x < y < self.days@.len() ==> self.days@[x].0 == before[x].0
                            && self.days@[x].1 == before[x].1 && self.days@[y].0 == before[y].0
                            && self.days@[y].1 == before[y].1);
                }
                t
            },
            None => {
                proof {
                    if day_total(self.days@, guild, day) is Some {
                        lemma_day_total_some_index(self.days@, guild, day);
                    }
                    lemma_day_total_push(self.days@, (guild, day, tenths));
                }
                let ghost before = self.days@;
                self.days.push((guild, day, tenths));
                proof {
                    assert(forall|k: int| 0 <= k < before.len() ==> self.days@[k] == before[k]);
                    assert(unique_days(self.days@)) by {
                        assert forall|x: int, y: int|
                            0 <= x < y < self.days@.len() implies !(#[trigger] self.days@[x].0
                            == #[trigger] self.days@[y].0 && self.days@[x].1
                            == self.days@[y].1) by {
                            if y == self.days@.len() - 1 {
                                assert(!(before[x].0 == guild && before[x].1 == day));
                            }
                        }
                    }
                }
                tenths
            },
        }
    }
}

proof fn lemma_day_total_some_index(s: Seq<(u64, DayKey, u64)>, g: u64, d: DayKey)
    requires
        day_total(s, g, d) is Some,
    ensures
        exists|j: int| 0 <= j < s.len() && #[trigger] s[j].0 == g && s[j].1 == d,
    decreases s.len(),
{
    if s.len() > 0 {
        if s[0].0 == g && s[0].1 == d {
        } else {
            lemma_day_total_some_index(s.drop_first(), g, d);
            let j = choose|j: int|
                0 <= j < s.drop_first().len() && #[trigger] s.drop_first()[j].0 == g
                    && s.drop_first()[j].1 == d;
            assert(s[j + 1].0 == g && s[j + 1].1 == d);
        }
    }
}

/// The sum of a sequence of elapsed-time contributions.
pub open spec fn sum_of(s: Seq<u64>) -> int
    decreases s.len(),
{
    if s.len() == 0 {
        0
    } else {
        s[0] + sum_of(s.drop_first())
    }
}

/// A counter total after applying a run of increments in order, starting
/// from `init`: each step adds its contribution to the running total, as
/// `add_elapsed` does.
pub open spec fn total_after(init: int, s: Seq<u64>) -> int
    decreases s.len(),
{
    if s.len() == 0 {
        init
    } else {
        total_after(init + s[0], s.drop_first())
    }
}

/// Law: however a run of increments for one `(guild, day)` counter is
/// ordered, the final total is the initial total plus the sum of all the
/// contributions — no serialization of concurrently ending sessions can
/// lose an update. In particular, a run of `n` one-unit increments on a
/// fresh counter ends at exactly `n`.
pub proof fn lemma_increments_accumulate(init: int, s: Seq<u64>)
    ensures
        total_after(init, s) == init + sum_of(s),
    decreases s.len(),
{
    if s.len() > 0 {
        lemma_increments_accumulate(init + s[0], s.drop_first());
    }
}

} // verus!

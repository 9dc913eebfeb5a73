use vstd::prelude::*;
use vstd::string::*;

use crate::agent::Type;
use crate::destination::{lemma_split_join, Destination};
use crate::error::Error;
use crate::text::{
    chars_of, dec, first_index, join, lemma_first_index, lemma_split_len, push_chars, push_decimal,
    push_signed_decimal, push_str, signed_dec, split, split_chars, str_eq, string_of, views,
    lemma_split_pieces_free_of_sep,
};

verus! {

broadcast use vstd::string::group_string_axioms;

/// Rust's `/` on integers: the quotient rounded towards zero.
pub open spec fn quot(a: int, b: int) -> int {
    if a >= 0 {
        a / b
    } else {
        -((-a) / b)
    }
}

/// Rust's `%` on integers: the remainder, with the sign of `a`.
pub open spec fn rem(a: int, b: int) -> int {
    a - b * quot(a, b)
}

/// A number of seconds as hours, minutes and seconds, leaving out the
/// leading parts that are not positive.
pub open spec fn duration_text(seconds: int) -> Seq<char> {
    let hours = quot(seconds, 3600);
    let mins = quot(rem(seconds, 3600), 60);
    let secs = rem(seconds, 60);
    if hours > 0 {
        signed_dec(hours) + seq!['h', ' '] + signed_dec(mins) + seq!['m', ' '] + signed_dec(secs)
            + seq!['s']
    } else if mins > 0 {
        signed_dec(mins) + seq!['m', ' '] + signed_dec(secs) + seq!['s']
    } else {
        signed_dec(secs) + seq!['s']
    }
}

/// Show a duration in seconds as `"{h}h {m}m {s}s"`, `"{m}m {s}s"` or
/// `"{s}s"`.
pub fn format_duration(seconds: i64) -> (r: String)
    ensures
        r@ == duration_text(seconds as int),
{
    let neg = seconds < 0;
    let m: u64 = if seconds == i64::MIN {
        0x8000_0000_0000_0000
    } else if neg {
        (-seconds) as u64
    } else {
        seconds as u64
    };
    let h0: u64 = m / 3600;
    let m0: u64 = (m % 3600) / 60;
    let s0: u64 = m % 60;
    let hours: i64 = if neg { -(h0 as i64) } else { h0 as i64 };
    let mins: i64 = if neg { -(m0 as i64) } else { m0 as i64 };
    let secs: i64 = if neg { -(s0 as i64) } else { s0 as i64 };
    assert(hours == quot(seconds as int, 3600));
    assert(rem(seconds as int, 3600) == if neg { -((m % 3600) as int) } else { (m % 3600) as int });
    assert(mins == quot(rem(seconds as int, 3600), 60));
    assert(secs == rem(seconds as int, 60));
    let mut v: Vec<char> = Vec::new();
    if hours > 0 {
        push_signed_decimal(&mut v, hours);
        v.push('h');
        v.push(' ');
        push_signed_decimal(&mut v, mins);
        v.push('m');
        v.push(' ');
        push_signed_decimal(&mut v, secs);
        v.push('s');
    } else if mins > 0 {
        push_signed_decimal(&mut v, mins);
        v.push('m');
        v.push(' ');
        push_signed_decimal(&mut v, secs);
        v.push('s');
    } else {
        push_signed_decimal(&mut v, secs);
        v.push('s');
    }
    assert(v@ =~= duration_text(seconds as int));
    string_of(&v)
}


/// Maximum number of failed jobs tracked.
pub const MAX_FAILED_JOBS: usize = 200;

/// Maximum number of expired jobs tracked.
pub const MAX_EXPIRED_JOBS: usize = 200;

/// How many entries of each kind a report lists.
pub const REPORT_ENTRIES: usize = 100;

/// What jobs are told apart by: where they go and what they ask.
#[derive(Debug)]
pub struct JobKey {
    pub destination: String,
    pub instruction: String,
}

pub type KeyView = (Seq<char>, Seq<char>);

impl View for JobKey {
    type V = KeyView;

    open spec fn view(&self) -> KeyView {
        (self.destination@, self.instruction@)
    }
}

impl Clone for JobKey {
    fn clone(&self) -> (r: Self)
        ensures
            r@ == self@,
    {
        JobKey { destination: self.destination.clone(), instruction: self.instruction.clone() }
    }
}

impl JobKey {
    /// The key of a job going to `destination` with `instruction`.
    pub fn from_job(destination: &Destination, instruction: &str) -> (r: Self)
        ensures
            r@ == (crate::text::join(destination@, seq!['.']), instruction@),
    {
        JobKey { destination: destination.to_string(), instruction: String::from_str(instruction) }
    }

    fn same(&self, other: &JobKey) -> (r: bool)
        ensures
            r == (self@ == other@),
    {
        str_eq(self.destination.as_str(), other.destination.as_str()) && str_eq(
            self.instruction.as_str(),
            other.instruction.as_str(),
        )
    }
}

pub open spec fn key_views<D>(s: Seq<(JobKey, D)>) -> Seq<KeyView> {
    s.map_values(|e: (JobKey, D)| e.0@)
}

fn find_key<D>(v: &Vec<(JobKey, D)>, key: &JobKey) -> (r: Option<usize>)
    ensures
        r is None ==> first_index(key_views(v@), key@) < 0,
        r matches Some(i) ==> i == first_index(key_views(v@), key@) && i < v@.len(),
{
    let ghost ks = key_views(v@);
    proof {
        lemma_first_index(ks, key@);
    }
    let mut i: usize = 0;
    while i < v.len()
        invariant
            i <= v@.len(),
            ks == key_views(v@),
            ks.len() == v@.len(),
            forall|j: int| 0 <= j < i ==> ks[j] != key@,
        decreases v@.len() - i,
    {
        assert(ks[i as int] == v@[i as int].0@);
        if v[i].0.same(key) {
            proof {
                lemma_first_index(ks, key@);
            }
            return Some(i);
        }
        i = i + 1;
    }
    None
}

/// A failure recorded for a kind of job: the latest error, how often, and
/// when first and last (nanoseconds since the UNIX epoch).
#[derive(Debug)]
pub struct FailedJobData {
    pub error_message: String,
    pub count: usize,
    pub first_seen: i64,
    pub last_seen: i64,
}

/// An expiry recorded for a kind of job.
#[derive(Debug, Clone, Copy)]
pub struct ExpiredJobData {
    pub created_at: i64,
    pub expired_at: i64,
    pub count: usize,
}

/// Jobs of one kind running now: when the first started, and how many.
#[derive(Debug, Clone, Copy)]
pub struct RunningJobData {
    pub started_at: i64,
    pub count: usize,
}

pub type FailedView = (KeyView, (Seq<char>, usize, i64, i64));

pub type ExpiredView = (KeyView, (i64, i64, usize));

pub type RunningView = (KeyView, (i64, usize));

/// Records the jobs that failed, expired or are running, for reports on
/// an agent's health. Entries of one kind of job are merged; the failed and
/// expired lists keep the latest kinds, oldest first, up to their caps.
#[derive(Debug)]
pub struct DiagnosticsTracker {
    failed: Vec<(JobKey, FailedJobData)>,
    expired: Vec<(JobKey, ExpiredJobData)>,
    running: Vec<(JobKey, RunningJobData)>,
}

/// A list with its oldest entry dropped once it holds more than `max`.
pub open spec fn capped<A>(s: Seq<A>, max: nat) -> Seq<A> {
    if s.len() > max {
        s.drop_first()
    } else {
        s
    }
}

/// The failures after one more of kind `key`, with `message`, at `now`.
pub open spec fn failed_after(s: Seq<FailedView>, key: KeyView, message: Seq<char>, now: i64) -> Seq<FailedView> {
    let i = first_index(s.map_values(|e: FailedView| e.0), key);
    if i >= 0 {
        s.update(i, (key, (message, (s[i].1.1 + 1) as usize, s[i].1.2, now)))
    } else {
        capped(s.push((key, (message, 1usize, now, now))), MAX_FAILED_JOBS as nat)
    }
}

/// The expiries after one more of kind `key`, of a job created at
/// `created_at`, at `now`.
pub open spec fn expired_after(s: Seq<ExpiredView>, key: KeyView, created_at: i64, now: i64) -> Seq<ExpiredView> {
    let i = first_index(s.map_values(|e: ExpiredView| e.0), key);
    if i >= 0 {
        s.update(i, (key, (s[i].1.0, now, (s[i].1.2 + 1) as usize)))
    } else {
        capped(s.push((key, (created_at, now, 1usize))), MAX_EXPIRED_JOBS as nat)
    }
}

/// The running jobs after one more of kind `key` starts at `now`.
pub open spec fn started_after(s: Seq<RunningView>, key: KeyView, now: i64) -> Seq<RunningView> {
    let i = first_index(s.map_values(|e: RunningView| e.0), key);
    if i >= 0 {
        s.update(i, (key, (s[i].1.0, (s[i].1.1 + 1) as usize)))
    } else {
        s.push((key, (now, 1usize)))
    }
}

/// The running jobs after one of kind `key` finishes.
pub open spec fn finished_after(s: Seq<RunningView>, key: KeyView) -> Seq<RunningView> {
    let i = first_index(s.map_values(|e: RunningView| e.0), key);
    if i < 0 {
        s
    } else if s[i].1.1 > 1 {
        s.update(i, (key, (s[i].1.0, (s[i].1.1 - 1) as usize)))
    } else {
        s.remove(i)
    }
}

impl DiagnosticsTracker {
    pub closed spec fn failed_view(&self) -> Seq<FailedView> {
        self.failed@.map_values(
            |e: (JobKey, FailedJobData)|
                (e.0@, (e.1.error_message@, e.1.count, e.1.first_seen, e.1.last_seen)),
        )
    }

    pub closed spec fn expired_view(&self) -> Seq<ExpiredView> {
        self.expired@.map_values(
            |e: (JobKey, ExpiredJobData)| (e.0@, (e.1.created_at, e.1.expired_at, e.1.count)),
        )
    }

    pub closed spec fn running_view(&self) -> Seq<RunningView> {
        self.running@.map_values(|e: (JobKey, RunningJobData)| (e.0@, (e.1.started_at, e.1.count)))
    }

    pub fn new() -> (r: Self)
        ensures
            r.failed_view().len() == 0,
            r.expired_view().len() == 0,
            r.running_view().len() == 0,
    {
        DiagnosticsTracker { failed: Vec::new(), expired: Vec::new(), running: Vec::new() }
    }
}


impl DiagnosticsTracker {
    /// Whether another failure of kind `key` can be counted.
    pub open spec fn can_count_failure(&self, key: KeyView) -> bool {
        let s = self.failed_view();
        let i = first_index(s.map_values(|e: FailedView| e.0), key);
        i >= 0 ==> s[i].1.1 < usize::MAX
    }

    pub open spec fn can_count_expiry(&self, key: KeyView) -> bool {
        let s = self.expired_view();
        let i = first_index(s.map_values(|e: ExpiredView| e.0), key);
        i >= 0 ==> s[i].1.2 < usize::MAX
    }

    pub open spec fn can_count_start(&self, key: KeyView) -> bool {
        let s = self.running_view();
        let i = first_index(s.map_values(|e: RunningView| e.0), key);
        i >= 0 ==> s[i].1.1 < usize::MAX
    }

    /// Record a failure of a job of kind `key` with `error_message` at
    /// `now`: counted against its kind, whose latest message it becomes, or
    /// added as the newest kind, dropping the oldest beyond the cap.
    pub fn record_failed_job(&mut self, key: JobKey, error_message: String, now: i64)
        requires
            old(self).can_count_failure(key@),
        ensures
            final(self).failed_view() == failed_after(old(self).failed_view(), key@, error_message@, now),
            final(self).expired_view() == old(self).expired_view(),
            final(self).running_view() == old(self).running_view(),
    {
        let ghost before = self.failed_view();
        let ghost k = key@;
        let ghost m = error_message@;
        assert(before.map_values(|e: FailedView| e.0) =~= key_views(self.failed@));
        match find_key(&self.failed, &key) {
            Some(i) => {
                let first_seen = self.failed[i].1.first_seen;
                let count = self.failed[i].1.count + 1;
                self.failed.set(
                    i,
                    (key, FailedJobData { error_message, count, first_seen, last_seen: now }),
                );
                assert(self.failed_view() =~= failed_after(before, k, m, now));
            },
            None => {
                self.failed.push(
                    (key, FailedJobData { error_message, count: 1, first_seen: now, last_seen: now }),
                );
                let ghost pushed = self.failed_view();
                assert(pushed =~= before.push((k, (m, 1usize, now, now))));
                if self.failed.len() > MAX_FAILED_JOBS {
                    let _ = self.failed.remove(0);
                    assert(self.failed_view() =~= pushed.drop_first());
                }
            },
        }
    }

    /// Record that a job of kind `key`, created at `created_at`, expired at
    /// `now`.
    pub fn record_expired_job(&mut self, key: JobKey, created_at: i64, now: i64)
        requires
            old(self).can_count_expiry(key@),
        ensures
            final(self).expired_view() == expired_after(old(self).expired_view(), key@, created_at, now),
            final(self).failed_view() == old(self).failed_view(),
            final(self).running_view() == old(self).running_view(),
    {
        let ghost before = self.expired_view();
        let ghost k = key@;
        assert(before.map_values(|e: ExpiredView| e.0) =~= key_views(self.expired@));
        match find_key(&self.expired, &key) {
            Some(i) => {
                let created = self.expired[i].1.created_at;
                let count = self.expired[i].1.count + 1;
                self.expired.set(i, (key, ExpiredJobData { created_at: created, expired_at: now, count }));
                assert(self.expired_view() =~= expired_after(before, k, created_at, now));
            },
            None => {
                self.expired.push((key, ExpiredJobData { created_at, expired_at: now, count: 1 }));
                let ghost pushed = self.expired_view();
                assert(pushed =~= before.push((k, (created_at, now, 1usize))));
                if self.expired.len() > MAX_EXPIRED_JOBS {
                    let _ = self.expired.remove(0);
                    assert(self.expired_view() =~= pushed.drop_first());
                }
            },
        }
    }

    /// Record that a job of kind `key` started running at `now`.
    pub fn record_job_started(&mut self, key: JobKey, now: i64)
        requires
            old(self).can_count_start(key@),
        ensures
            final(self).running_view() == started_after(old(self).running_view(), key@, now),
            final(self).failed_view() == old(self).failed_view(),
            final(self).expired_view() == old(self).expired_view(),
    {
        let ghost before = self.running_view();
        let ghost k = key@;
        assert(before.map_values(|e: RunningView| e.0) =~= key_views(self.running@));
        match find_key(&self.running, &key) {
            Some(i) => {
                let started = self.running[i].1.started_at;
                let count = self.running[i].1.count + 1;
                self.running.set(i, (key, RunningJobData { started_at: started, count }));
            },
            None => {
                self.running.push((key, RunningJobData { started_at: now, count: 1 }));
            },
        }
        assert(self.running_view() =~= started_after(before, k, now));
    }

    /// Record that a job of kind `key` finished, however it ended.
    pub fn record_job_finished(&mut self, key: &JobKey)
        ensures
            final(self).running_view() == finished_after(old(self).running_view(), key@),
            final(self).failed_view() == old(self).failed_view(),
            final(self).expired_view() == old(self).expired_view(),
    {
        let ghost before = self.running_view();
        assert(before.map_values(|e: RunningView| e.0) =~= key_views(self.running@));
        match find_key(&self.running, key) {
            Some(i) => {
                let data = self.running[i].1;
                if data.count > 1 {
                    let k = key.clone();
                    self.running.set(i, (k, RunningJobData { started_at: data.started_at, count: data.count - 1 }));
                    assert(self.running_view() =~= finished_after(before, key@));
                } else {
                    let _ = self.running.remove(i);
                    assert(self.running_view() =~= finished_after(before, key@));
                }
            },
            None => {},
        }
    }
}


/// A kind of job that failed, as a report lists it.
#[derive(Debug)]
pub struct FailedJobEntry {
    pub destination: String,
    pub instruction: String,
    pub error_message: String,
    pub count: usize,
    pub first_seen: i64,
    pub last_seen: i64,
}

/// A kind of job that expired, as a report lists it.
#[derive(Debug)]
pub struct ExpiredJobEntry {
    pub destination: String,
    pub instruction: String,
    pub created_at: i64,
    pub expired_at: i64,
    pub count: usize,
}

/// A kind of job running now, as a report lists it.
#[derive(Debug)]
pub struct RunningJobEntry {
    pub destination: String,
    pub instruction: String,
    pub started_at: i64,
    pub count: usize,
    pub running_for_seconds: i64,
}

/// What an agent reports of its health: the latest kinds of failed and
/// expired jobs, most recent first, the jobs running now, longest running
/// first, and warnings drawn from them.
#[derive(Debug)]
pub struct DiagnosticsReport {
    pub agent_name: String,
    pub generated_at: i64,
    pub failed_jobs: Vec<FailedJobEntry>,
    pub expired_jobs: Vec<ExpiredJobEntry>,
    pub running_jobs: Vec<RunningJobEntry>,
    pub warnings: Vec<String>,
}

pub open spec fn failed_entry_view(e: FailedJobEntry) -> FailedView {
    ((e.destination@, e.instruction@), (e.error_message@, e.count, e.first_seen, e.last_seen))
}

pub open spec fn expired_entry_view(e: ExpiredJobEntry) -> ExpiredView {
    ((e.destination@, e.instruction@), (e.created_at, e.expired_at, e.count))
}

/// A running kind of job as reported at some time: its key, start, count,
/// and the whole seconds it has been running.
pub type RunningEntryView = (KeyView, (i64, usize, int));

pub open spec fn running_entry_view(e: RunningJobEntry) -> RunningEntryView {
    ((e.destination@, e.instruction@), (e.started_at, e.count, e.running_for_seconds as int))
}

/// The latest `n` entries, most recent first.
pub open spec fn latest<A>(s: Seq<A>, n: nat) -> Seq<A> {
    s.reverse().take(if s.len() < n { s.len() as int } else { n as int })
}

/// Nanoseconds in a second.
pub const NANOS: i128 = 1_000_000_000;

/// A running kind of job as reported at `now`.
pub open spec fn running_at(e: RunningView, now: i64) -> RunningEntryView {
    (e.0, (e.1.0, e.1.1, quot(now as int - e.1.0 as int, NANOS as int)))
}

/// `e` placed in the list sorted longest-running first, after the entries
/// running as long.
pub open spec fn insert_by_age(t: Seq<RunningEntryView>, e: RunningEntryView) -> Seq<RunningEntryView>
    decreases t.len(),
{
    if t.len() == 0 {
        seq![e]
    } else if t.last().1.2 >= e.1.2 {
        t.push(e)
    } else {
        insert_by_age(t.drop_last(), e).push(t.last())
    }
}

/// The running jobs as reported at `now`, longest running first, those
/// running as long in the order they started.
pub open spec fn by_age(s: Seq<RunningView>, now: i64) -> Seq<RunningEntryView>
    decreases s.len(),
{
    if s.len() == 0 {
        Seq::empty()
    } else {
        insert_by_age(by_age(s.drop_last(), now), running_at(s.last(), now))
    }
}

pub open spec fn count_where<A>(s: Seq<A>, p: spec_fn(A) -> bool) -> nat
    decreases s.len(),
{
    if s.len() == 0 {
        0
    } else {
        count_where(s.drop_last(), p) + if p(s.last()) {
            1nat
        } else {
            0nat
        }
    }
}

/// The warnings a report carries: many failures of a kind, jobs running
/// longer than five minutes, many expired jobs.
pub open spec fn warnings_for(
    failed: Seq<FailedView>,
    running: Seq<RunningEntryView>,
    expired: Seq<ExpiredView>,
) -> Seq<Seq<char>> {
    let high = count_where(failed, |e: FailedView| e.1.1 >= 10);
    let long = count_where(running, |e: RunningEntryView| e.1.2 > 300);
    let w1 = if high > 0 {
        seq!["High failure rate detected for "@ + dec(high) + " job type(s)"@]
    } else {
        Seq::empty()
    };
    let w2 = if long > 0 {
        seq![dec(long) + " job(s) running longer than 5 minutes"@]
    } else {
        Seq::empty()
    };
    let w3 = if expired.len() > 50 {
        seq!["High number of expired jobs: "@ + dec(expired.len()) + " tracked"@]
    } else {
        Seq::empty()
    };
    w1 + w2 + w3
}


proof fn lemma_insert_by_age(t: Seq<RunningEntryView>, e: RunningEntryView, p: int)
    requires
        0 <= p <= t.len(),
        forall|j: int| p <= j < t.len() ==> (#[trigger] t[j]).1.2 < e.1.2,
        p > 0 ==> t[p - 1].1.2 >= e.1.2,
    ensures
        insert_by_age(t, e) == t.insert(p, e),
    decreases t.len(),
{
    if t.len() == 0 {
        assert(t.insert(p, e) =~= seq![e]);
    } else if t.last().1.2 >= e.1.2 {
        assert(p == t.len());
        assert(t.insert(p, e) =~= t.push(e));
    } else {
        assert(p < t.len());
        lemma_insert_by_age(t.drop_last(), e, p);
        assert(t.drop_last().insert(p, e).push(t.last()) =~= t.insert(p, e));
    }
}

impl DiagnosticsTracker {
    fn failed_entry(&self, i: usize) -> (r: FailedJobEntry)
        requires
            i < self.failed@.len(),
        ensures
            failed_entry_view(r) == self.failed_view()[i as int],
    {
        let e = &self.failed[i];
        FailedJobEntry {
            destination: e.0.destination.clone(),
            instruction: e.0.instruction.clone(),
            error_message: e.1.error_message.clone(),
            count: e.1.count,
            first_seen: e.1.first_seen,
            last_seen: e.1.last_seen,
        }
    }

    fn expired_entry(&self, i: usize) -> (r: ExpiredJobEntry)
        requires
            i < self.expired@.len(),
        ensures
            expired_entry_view(r) == self.expired_view()[i as int],
    {
        let e = &self.expired[i];
        ExpiredJobEntry {
            destination: e.0.destination.clone(),
            instruction: e.0.instruction.clone(),
            created_at: e.1.created_at,
            expired_at: e.1.expired_at,
            count: e.1.count,
        }
    }

    fn running_entry(&self, i: usize, now: i64) -> (r: RunningJobEntry)
        requires
            i < self.running@.len(),
        ensures
            running_entry_view(r) == running_at(self.running_view()[i as int], now),
    {
        let e = &self.running[i];
        let diff: i128 = now as i128 - e.1.started_at as i128;
        let secs: i128 = if diff >= 0 {
            diff / NANOS
        } else {
            -((-diff) / NANOS)
        };
        assert(secs == quot(now as int - e.1.started_at as int, NANOS as int));
        RunningJobEntry {
            destination: e.0.destination.clone(),
            instruction: e.0.instruction.clone(),
            started_at: e.1.started_at,
            count: e.1.count,
            running_for_seconds: secs as i64,
        }
    }
}


pub open spec fn failed_entry_views(s: Seq<FailedJobEntry>) -> Seq<FailedView> {
    s.map_values(|e: FailedJobEntry| failed_entry_view(e))
}

pub open spec fn expired_entry_views(s: Seq<ExpiredJobEntry>) -> Seq<ExpiredView> {
    s.map_values(|e: ExpiredJobEntry| expired_entry_view(e))
}

pub open spec fn running_entry_views(s: Seq<RunningJobEntry>) -> Seq<RunningEntryView> {
    s.map_values(|e: RunningJobEntry| running_entry_view(e))
}

pub open spec fn string_views(s: Seq<String>) -> Seq<Seq<char>> {
    s.map_values(|w: String| w@)
}

impl DiagnosticsTracker {
    /// The report of what has been recorded, generated at `now` by the agent
    /// called `agent_name`.
    pub fn generate_report(&self, agent_name: &str, now: i64) -> (r: DiagnosticsReport)
        ensures
            r.agent_name@ == agent_name@,
            r.generated_at == now,
            failed_entry_views(r.failed_jobs@) == latest(self.failed_view(), REPORT_ENTRIES as nat),
            expired_entry_views(r.expired_jobs@) == latest(self.expired_view(), REPORT_ENTRIES as nat),
            running_entry_views(r.running_jobs@) == by_age(self.running_view(), now),
            string_views(r.warnings@) == warnings_for(
                failed_entry_views(r.failed_jobs@),
                running_entry_views(r.running_jobs@),
                expired_entry_views(r.expired_jobs@),
            ),
    {
        // the latest failures, most recent first
        let nf = self.failed.len();
        let take_f: usize = if nf < REPORT_ENTRIES { nf } else { REPORT_ENTRIES };
        let ghost fv = self.failed_view();
        let mut failed_jobs: Vec<FailedJobEntry> = Vec::new();
        let mut k: usize = 0;
        while k < take_f
            invariant
                k <= take_f <= nf,
                nf == self.failed@.len(),
                fv == self.failed_view(),
                failed_entry_views(failed_jobs@) == fv.reverse().take(k as int),
            decreases take_f - k,
        {
            let e = self.failed_entry(nf - 1 - k);
            let ghost before = failed_entry_views(failed_jobs@);
            failed_jobs.push(e);
            assert(fv.reverse()[k as int] == fv[nf - 1 - k]);
            assert(failed_entry_views(failed_jobs@) =~= before.push(fv[nf - 1 - k]));
            assert(failed_entry_views(failed_jobs@) =~= fv.reverse().take(k + 1));
            k = k + 1;
        }
        // the latest expiries, most recent first
        let ne = self.expired.len();
        let take_e: usize = if ne < REPORT_ENTRIES { ne } else { REPORT_ENTRIES };
        let ghost ev = self.expired_view();
        let mut expired_jobs: Vec<ExpiredJobEntry> = Vec::new();
        let mut k: usize = 0;
        while k < take_e
            invariant
                k <= take_e <= ne,
                ne == self.expired@.len(),
                ev == self.expired_view(),
                expired_entry_views(expired_jobs@) == ev.reverse().take(k as int),
            decreases take_e - k,
        {
            let e = self.expired_entry(ne - 1 - k);
            let ghost before = expired_entry_views(expired_jobs@);
            expired_jobs.push(e);
            assert(ev.reverse()[k as int] == ev[ne - 1 - k]);
            assert(expired_entry_views(expired_jobs@) =~= before.push(ev[ne - 1 - k]));
            assert(expired_entry_views(expired_jobs@) =~= ev.reverse().take(k + 1));
            k = k + 1;
        }
        // the running jobs, longest running first
        let nr = self.running.len();
        let ghost rv = self.running_view();
        let mut running_jobs: Vec<RunningJobEntry> = Vec::new();
        let mut k: usize = 0;
        while k < nr
            invariant
                k <= nr,
                nr == self.running@.len(),
                rv == self.running_view(),
                running_entry_views(running_jobs@) == by_age(rv.take(k as int), now),
            decreases nr - k,
        {
            let e = self.running_entry(k, now);
            let ghost t = running_entry_views(running_jobs@);
            let ghost ev = running_entry_view(e);
            let mut p: usize = running_jobs.len();
            while p > 0 && running_jobs[p - 1].running_for_seconds < e.running_for_seconds
                invariant
                    p <= running_jobs@.len(),
                    t == running_entry_views(running_jobs@),
                    ev == running_entry_view(e),
                    forall|j: int| p <= j < t.len() ==> (#[trigger] t[j]).1.2 < ev.1.2,
                decreases p,
            {
                assert(t[p - 1] == running_entry_view(running_jobs@[p - 1]));
                p = p - 1;
            }
            proof {
                if p > 0 {
                    assert(t[p - 1] == running_entry_view(running_jobs@[p - 1]));
                }
                lemma_insert_by_age(t, ev, p as int);
                assert(rv.take(k + 1).drop_last() =~= rv.take(k as int));
                assert(rv.take(k + 1).last() == rv[k as int]);
            }
            running_jobs.insert(p, e);
            assert(running_entry_views(running_jobs@) =~= t.insert(p as int, ev));
            k = k + 1;
        }
        assert(rv.take(nr as int) =~= rv);
        // the warnings
        let ghost fviews = failed_entry_views(failed_jobs@);
        let ghost rviews = running_entry_views(running_jobs@);
        let mut high: u64 = 0;
        let mut i: usize = 0;
        while i < failed_jobs.len()
            invariant
                i <= failed_jobs@.len() <= REPORT_ENTRIES,
                fviews == failed_entry_views(failed_jobs@),
                high as nat == count_where(fviews.take(i as int), |e: FailedView| e.1.1 >= 10),
                high <= i,
            decreases failed_jobs@.len() - i,
        {
            assert(fviews.take(i + 1).drop_last() =~= fviews.take(i as int));
            if failed_jobs[i].count >= 10 {
                high = high + 1;
            }
            i = i + 1;
        }
        assert(fviews.take(failed_jobs@.len() as int) =~= fviews);
        let mut long: u64 = 0;
        let mut i: usize = 0;
        while i < running_jobs.len()
            invariant
                i <= running_jobs@.len(),
                rviews == running_entry_views(running_jobs@),
                long as nat == count_where(rviews.take(i as int), |e: RunningEntryView| e.1.2 > 300),
                long <= i,
            decreases running_jobs@.len() - i,
        {
            assert(rviews.take(i + 1).drop_last() =~= rviews.take(i as int));
            if running_jobs[i].running_for_seconds > 300 {
                long = long + 1;
            }
            i = i + 1;
        }
        assert(rviews.take(running_jobs@.len() as int) =~= rviews);
        let mut warnings: Vec<String> = Vec::new();
        if high > 0 {
            let mut w: Vec<char> = Vec::new();
            push_str(&mut w, "High failure rate detected for ");
            push_decimal(&mut w, high);
            push_str(&mut w, " job type(s)");
            warnings.push(string_of(&w));
        }
        if long > 0 {
            let mut w: Vec<char> = Vec::new();
            push_decimal(&mut w, long);
            push_str(&mut w, " job(s) running longer than 5 minutes");
            warnings.push(string_of(&w));
        }
        if expired_jobs.len() > 50 {
            let mut w: Vec<char> = Vec::new();
            push_str(&mut w, "High number of expired jobs: ");
            push_decimal(&mut w, expired_jobs.len() as u64);
            push_str(&mut w, " tracked");
            warnings.push(string_of(&w));
        }
        assert(string_views(warnings@) =~= warnings_for(
            failed_entry_views(failed_jobs@),
            running_entry_views(running_jobs@),
            expired_entry_views(expired_jobs@),
        ));
        DiagnosticsReport {
            agent_name: String::from_str(agent_name),
            generated_at: now,
            failed_jobs,
            expired_jobs,
            running_jobs,
            warnings,
        }
    }
}


pub open spec fn running_keys(s: Seq<RunningView>) -> Seq<KeyView> {
    s.map_values(|e: RunningView| e.0)
}

pub open spec fn failed_keys(s: Seq<FailedView>) -> Seq<KeyView> {
    s.map_values(|e: FailedView| e.0)
}

/// A job that starts and then finishes leaves the running list as it was.
pub proof fn law_start_then_finish_restores(s: Seq<RunningView>, key: KeyView, now: i64)
    requires
        running_keys(s).no_duplicates(),
        first_index(running_keys(s), key) >= 0 ==> s[first_index(running_keys(s), key)].1.1 >= 1
            && s[first_index(running_keys(s), key)].1.1 < usize::MAX,
    ensures
        finished_after(started_after(s, key, now), key) == s,
{
    let ks = running_keys(s);
    lemma_first_index(ks, key);
    let i = first_index(ks, key);
    let t = started_after(s, key, now);
    if i >= 0 {
        assert(running_keys(t) =~= ks);
        assert(t[i].1.1 == s[i].1.1 + 1);
        assert(finished_after(t, key) =~= s);
    } else {
        assert(running_keys(t) =~= ks.push(key));
        lemma_first_index(running_keys(t), key);
        assert(running_keys(t)[s.len() as int] == key);
        assert(first_index(running_keys(t), key) == s.len());
        assert(t.remove(s.len() as int) =~= s);
    }
}

/// Recording a failure leaves at most `MAX_FAILED_JOBS` kinds, each listed
/// once, and the kind just recorded listed with its latest message and time.
pub proof fn law_failure_is_recorded_within_the_cap(
    s: Seq<FailedView>,
    key: KeyView,
    message: Seq<char>,
    now: i64,
)
    requires
        failed_keys(s).no_duplicates(),
        s.len() <= MAX_FAILED_JOBS,
    ensures
        failed_after(s, key, message, now).len() <= MAX_FAILED_JOBS,
        failed_keys(failed_after(s, key, message, now)).no_duplicates(),
        ({
            let t = failed_after(s, key, message, now);
            let j = first_index(failed_keys(t), key);
            j >= 0 && t[j].1.0 == message && t[j].1.3 == now
        }),
{
    let ks = failed_keys(s);
    lemma_first_index(ks, key);
    let i = first_index(ks, key);
    let t = failed_after(s, key, message, now);
    if i >= 0 {
        assert(failed_keys(t) =~= ks);
        lemma_first_index(failed_keys(t), key);
    } else {
        let pushed = s.push((key, (message, 1usize, now, now)));
        assert(failed_keys(pushed) =~= ks.push(key));
        assert(failed_keys(pushed).no_duplicates()) by {
            assert forall|a: int, b: int| 0 <= a < failed_keys(pushed).len() && 0 <= b < failed_keys(pushed).len() && a != b implies failed_keys(pushed)[a] != failed_keys(pushed)[b] by {
                if a < s.len() && b < s.len() {
                    assert(failed_keys(pushed)[a] == ks[a] && failed_keys(pushed)[b] == ks[b]);
                } else if a < s.len() {
                    assert(failed_keys(pushed)[a] == ks[a]);
                    assert(ks.contains(ks[a]));
                } else if b < s.len() {
                    assert(failed_keys(pushed)[b] == ks[b]);
                    assert(ks.contains(ks[b]));
                }
            }
        }
        if pushed.len() > MAX_FAILED_JOBS {
            assert(failed_keys(t) =~= failed_keys(pushed).drop_first());
            assert(failed_keys(t).no_duplicates()) by {
                assert forall|a: int, b: int| 0 <= a < failed_keys(t).len() && 0 <= b < failed_keys(t).len() && a != b implies failed_keys(t)[a] != failed_keys(t)[b] by {
                    assert(failed_keys(t)[a] == failed_keys(pushed)[a + 1]);
                    assert(failed_keys(t)[b] == failed_keys(pushed)[b + 1]);
                }
            }
            assert(failed_keys(t)[t.len() - 1] == key);
            lemma_first_index(failed_keys(t), key);
            assert(t[t.len() - 1] == pushed.last());
            assert(first_index(failed_keys(t), key) == t.len() - 1);
        } else {
            assert(failed_keys(t)[s.len() as int] == key);
            lemma_first_index(failed_keys(t), key);
            assert(first_index(failed_keys(t), key) == s.len());
        }
    }
}

/// Where a diagnostics request goes: answered here, or forwarded to the
/// named peer (in `zone`, if one is given) with the rest of the path, the
/// report being awaited from `target`.
#[derive(Debug)]
pub enum Route {
    Local,
    Forward { peer: String, zone: Option<String>, remaining: String, target: String },
}

/// The characters of an optional string.
pub open spec fn optional_text(o: Option<String>) -> Option<Seq<char>> {
    match o {
        Some(s) => Some(s@),
        None => None,
    }
}

/// The agent name of `name@zone`, or `t` itself where it names no zone.
pub open spec fn name_part(t: Seq<char>) -> Seq<char> {
    if t.contains('@') {
        split(t, '@')[0]
    } else {
        t
    }
}
proof fn lemma_first_piece(s: Seq<char>, sep: char)
    ensures
        split(s, sep).len() >= 1,
        split(s, sep)[0].is_prefix_of(s),
        split(s, sep).len() == 1 <==> !s.contains(sep),
        !s.contains(sep) ==> split(s, sep)[0] == s,
        s.contains(sep) ==> split(s, sep)[0].len() < s.len() && s[split(s, sep)[0].len() as int] == sep,
    decreases s.len(),
{
    if s.len() > 0 {
        let d = s.drop_last();
        lemma_first_piece(d, sep);
        let r = split(d, sep);
        assert(s.contains(sep) <==> (d.contains(sep) || s.last() == sep)) by {
            if s.contains(sep) {
                let k = choose|k: int| 0 <= k < s.len() && s[k] == sep;
                if k < s.len() - 1 {
                    assert(d[k] == sep);
                }
            }
            if d.contains(sep) {
                let k = choose|k: int| 0 <= k < d.len() && d[k] == sep;
                assert(s[k] == sep);
            }
            if s.last() == sep {
                assert(s[s.len() - 1] == sep);
            }
        }
        if s.last() == sep {
            assert(split(s, sep)[0] == r[0]);
            if !d.contains(sep) {
                assert(r[0] == d);
            }
        } else {
            if r.len() > 1 {
                assert(split(s, sep)[0] == r[0]);
            } else {
                assert(r[0] == d);
                assert(split(s, sep)[0] =~= s);
            }
        }
    }
}

/// The agent name of `name@zone` is the text before its first `@`, and a
/// text with no `@` is a name as it stands.
pub proof fn law_name_part_is_the_text_before_any_at(t: Seq<char>)
    ensures
        !name_part(t).contains('@'),
        name_part(t).is_prefix_of(t),
        t.contains('@') ==> name_part(t).len() < t.len() && t[name_part(t).len() as int] == '@',
        !t.contains('@') ==> name_part(t) == t,
{
    lemma_first_piece(t, '@');
    lemma_split_pieces_free_of_sep(t, '@');
}


/// The agents of a dot-separated path; none for an empty one.
pub open spec fn destination_parts(d: Seq<char>) -> Seq<Seq<char>> {
    if d.len() == 0 {
        Seq::empty()
    } else {
        split(d, '.')
    }
}

/// Whether the agent `my_name` answers a request for the path `parts`: the
/// path is empty, or names this agent alone.
pub open spec fn is_diagnostics_target(parts: Seq<Seq<char>>, my_name: Seq<char>) -> bool {
    parts.len() == 0 || (parts.len() == 1 && name_part(parts[0]) == my_name)
}

/// The peer name and zone of the next hop `name` or `name@zone`; `None`
/// where it holds more than one `@`.
pub open spec fn forward_hop(hop: Seq<char>) -> Option<(Seq<char>, Option<Seq<char>>)> {
    if hop.contains('@') {
        let p = split(hop, '@');
        if p.len() == 2 {
            Some((p[0], Some(p[1])))
        } else {
            None
        }
    } else {
        Some((hop, None))
    }
}

/// The agent that will write the report: the last agent of the remaining
/// path, or the next peer where none remains, without its zone.
pub open spec fn ultimate_target(peer: Seq<char>, remaining: Seq<char>) -> Seq<char> {
    name_part(
        if remaining.len() == 0 {
            peer
        } else {
            split(remaining, '.').last()
        },
    )
}
/// A forwarded request is answered by the last agent of its path: for a path
/// `a.b.c` forwarded to `a`, the report is awaited from `c` (without any
/// zone). Where nothing remains after the next peer, that peer answers.
pub proof fn law_the_report_comes_from_the_last_agent_of_the_path(destination: Seq<char>)
    requires
        destination_parts(destination).len() >= 1,
        forward_hop(destination_parts(destination)[0]) is Some,
    ensures
        ({
            let parts = destination_parts(destination);
            let peer = forward_hop(parts[0]).unwrap().0;
            let remaining = join(parts.skip(1), seq!['.']);
            &&& remaining.len() > 0 ==> ultimate_target(peer, remaining) == name_part(parts.last())
            &&& remaining.len() == 0 ==> ultimate_target(peer, remaining) == name_part(peer)
        }),
{
    let parts = destination_parts(destination);
    let rest = parts.skip(1);
    let remaining = join(rest, seq!['.']);
    if remaining.len() > 0 {
        assert(rest.len() >= 1) by {
            if rest.len() == 0 {
                assert(remaining =~= Seq::<char>::empty());
            }
        }
        assert(destination.len() > 0);
        lemma_split_pieces_free_of_sep(destination, '.');
        assert forall|i: int| 0 <= i < rest.len() implies !(#[trigger] rest[i]).contains('.') by {
            assert(rest[i] == parts[i + 1]);
        }
        lemma_split_join(rest);
        assert(rest.last() == parts.last());
    }
}


fn has_char(v: &Vec<char>, c: char) -> (r: bool)
    ensures
        r == v@.contains(c),
{
    let mut i: usize = 0;
    while i < v.len()
        invariant
            i <= v@.len(),
            forall|k: int| 0 <= k < i ==> v@[k] != c,
        decreases v@.len() - i,
    {
        if v[i] == c {
            assert(v@[i as int] == c);
            return true;
        }
        i = i + 1;
    }
    false
}

fn name_part_of(t: &Vec<char>) -> (r: Vec<char>)
    ensures
        r@ == name_part(t@),
{
    if has_char(t, '@') {
        let p = split_chars(t, '@');
        proof {
            lemma_split_len(t@, '@');
        }
        assert(views(p@)[0] == p@[0]@);
        p[0].clone()
    } else {
        t.clone()
    }
}

/// The pieces of `parts` from `from` on, joined with dots.
fn join_dots(parts: &Vec<Vec<char>>, from: usize) -> (r: Vec<char>)
    requires
        from <= parts@.len(),
    ensures
        r@ == join(views(parts@).skip(from as int), seq!['.']),
{
    let ghost all = views(parts@);
    let mut out: Vec<char> = Vec::new();
    let mut i: usize = from;
    assert(all.subrange(from as int, from as int) =~= Seq::<Seq<char>>::empty());
    while i < parts.len()
        invariant
            from <= i <= parts@.len(),
            all == views(parts@),
            out@ == join(all.subrange(from as int, i as int), seq!['.']),
        decreases parts@.len() - i,
    {
        let ghost s = all.subrange(from as int, i + 1);
        assert(s.drop_last() =~= all.subrange(from as int, i as int));
        assert(s.last() == parts@[i as int]@);
        if i > from {
            out.push('.');
        }
        let ghost before = out@;
        push_chars(&mut out, &parts[i]);
        if i == from {
            assert(out@ =~= parts@[i as int]@);
        } else {
            assert(out@ =~= before + parts@[i as int]@);
        }
        i = i + 1;
    }
    assert(all.subrange(from as int, parts@.len() as int) =~= all.skip(from as int));
    out
}

/// Decide where a diagnostics request for the dot-separated path
/// `destination`, received by the agent `my_name`, goes. An agent that does
/// not cascade health requests answers only for itself.
pub fn route_diagnostics(destination: &str, my_name: &str, cascade: bool) -> (r: Result<Route, Error>)
    ensures
        ({
            let parts = destination_parts(destination@);
            if is_diagnostics_target(parts, my_name@) {
                r matches Ok(Route::Local)
            } else if !cascade {
                r matches Err(Error::Any(m)) && m@ == "Leaf node agents cannot forward diagnostics requests"@
            } else {
                match forward_hop(parts[0]) {
                    None => r matches Err(Error::Any(m)) && m@ == "Invalid format '"@ + parts[0]
                        + "' - use 'name' or 'name@zone'"@,
                    Some(hop) => r matches Ok(Route::Forward { peer, zone, remaining, target })
                        && peer@ == hop.0 && optional_text(zone) == hop.1 && remaining@ == join(
                        parts.skip(1),
                        seq!['.'],
                    ) && target@ == ultimate_target(hop.0, remaining@),
                }
            }
        }),
{
    let d = chars_of(destination);
    let parts: Vec<Vec<char>> = if d.len() == 0 {
        Vec::new()
    } else {
        split_chars(&d, '.')
    };
    let ghost ps = destination_parts(destination@);
    assert(views(parts@) == ps) by {
        if d.len() == 0 {
            assert(views(parts@) =~= Seq::<Seq<char>>::empty());
        }
    }
    let is_target = if parts.len() == 0 {
        true
    } else if parts.len() == 1 {
        assert(views(parts@)[0] == parts@[0]@);
        let n = name_part_of(&parts[0]);
        crate::agent::chars_eq(&n, my_name)
    } else {
        false
    };
    if is_target {
        return Ok(Route::Local);
    }
    if !cascade {
        return Err(Error::Any(String::from_str("Leaf node agents cannot forward diagnostics requests")));
    }
    let hop = &parts[0];
    assert(views(parts@)[0] == hop@);
    let (peer, zone): (Vec<char>, Option<String>) = if has_char(hop, '@') {
        let p = split_chars(hop, '@');
        if p.len() == 2 {
            assert(views(p@)[0] == p@[0]@);
            assert(views(p@)[1] == p@[1]@);
            (p[0].clone(), Some(string_of(&p[1])))
        } else {
            let mut m: Vec<char> = Vec::new();
            push_str(&mut m, "Invalid format '");
            push_chars(&mut m, hop);
            push_str(&mut m, "' - use 'name' or 'name@zone'");
            return Err(Error::Any(string_of(&m)));
        }
    } else {
        (hop.clone(), None)
    };
    let remaining = join_dots(&parts, 1);
    let last: Vec<char> = if remaining.len() == 0 {
        peer.clone()
    } else {
        let pieces = split_chars(&remaining, '.');
        proof {
            lemma_split_len(remaining@, '.');
        }
        assert(views(pieces@).last() == pieces@[pieces@.len() - 1]@);
        pieces[pieces.len() - 1].clone()
    };
    let target = name_part_of(&last);
    Ok(
        Route::Forward {
            peer: string_of(&peer),
            zone,
            remaining: string_of(&remaining),
            target: string_of(&target),
        },
    )
}

/// Whether a diagnostics request may be forwarded from an agent of type
/// `mine` to a peer of type `peer`: a portal never forwards one to another
/// portal.
pub fn may_forward(mine: Type, peer: Option<Type>) -> (r: bool)
    ensures
        r == !(mine == Type::Portal && peer == Some(Type::Portal)),
{
    match (mine, peer) {
        (Type::Portal, Some(Type::Portal)) => false,
        _ => true,
    }
}

} // verus!

use vstd::prelude::*;
use vstd::string::*;

use crate::error::Error;
use crate::json::{
    call_error, required_i64, required_signed, required_str, required_text, required_u64,
    required_unsigned, Json,
};
use crate::slurm::{classified, clipped_consumers, time_text, utc_text, Attempt, SlurmJob, SlurmNode, SlurmNodes};
use crate::text::str_eq;

verus! {

broadcast use vstd::string::group_string_axioms;

/// The most seconds, either way, that chrono's `Duration::seconds` accepts;
/// it panics beyond them.
pub const ELAPSED_LIMIT: i64 = 9223372036854775;

/// Calls chrono's `Utc.timestamp_opt(seconds, 0)` and asks whether it gave
/// a single date. In chrono's source that call is
/// `DateTime::from_timestamp(seconds, 0)`, so it gives one exactly where
/// `utc_text` (the name for what `from_timestamp` formats to) has a text.
#[verifier::external_body]
fn utc_second_exists(seconds: i64) -> (r: bool)
    ensures
        r == (utc_text(seconds as int) is Some),
{
    chrono::TimeZone::timestamp_opt(&chrono::Utc, seconds, 0).single().is_some()
}

/// Calls `chrono::Utc::now()` and gives its UNIX second: the clock, of
/// which nothing is promised.
#[verifier::external_body]
fn now_seconds() -> (r: i64) {
    chrono::Utc::now().timestamp()
}

/// A second as a record keeps it: the second itself where chrono has a date
/// for it, and `fallback` where it has none.
pub open spec fn known_second(seconds: i64, fallback: i64) -> i64 {
    if utc_text(seconds as int) is Some {
        seconds
    } else {
        fallback
    }
}

/// The resource that an entry of a record's trackable resources counts.
#[derive(Debug, Clone, Copy, PartialEq, Eq, Structural)]
pub enum Resource {
    Node,
    Cpu,
    Memory,
    Gpu,
    Energy,
    Billing,
}

/// The resource an entry counts, by its type (and, for generic resources,
/// its name); `None` for one that is not tracked.
pub open spec fn entry_resource(e: Json) -> Option<Resource> {
    match e.field("type"@) {
        Some(t) => match t.text() {
            Some(k) => if k == "cpu"@ {
                Some(Resource::Cpu)
            } else if k == "mem"@ {
                Some(Resource::Memory)
            } else if k == "gres"@ {
                match e.field("name"@) {
                    Some(n) => if n.text() == Some("gpu"@) {
                        Some(Resource::Gpu)
                    } else {
                        None
                    },
                    None => None,
                }
            } else if k == "node"@ {
                Some(Resource::Node)
            } else if k == "energy"@ {
                Some(Resource::Energy)
            } else if k == "billing"@ {
                Some(Resource::Billing)
            } else {
                None
            },
            None => None,
        },
        None => None,
    }
}

/// The count of an entry; Slurm writes a negative count for one that is not
/// available, and that counts 0.
pub open spec fn entry_count(e: Json) -> int {
    match e.field("count"@) {
        Some(c) => match c.signed() {
            Some(n) => if n >= 0 {
                n as int
            } else {
                0
            },
            None => 0,
        },
        None => 0,
    }
}

/// The total count of resource `r` over `es`.
pub open spec fn tres_total(es: Seq<Json>, r: Resource) -> int
    decreases es.len(),
{
    if es.len() == 0 {
        0
    } else {
        tres_total(es.drop_last(), r) + if entry_resource(es.last()) == Some(r) {
            entry_count(es.last())
        } else {
            0
        }
    }
}

/// Whether an entry has a string type, a string name and an integer count.
pub open spec fn entry_complete(e: Json) -> bool {
    &&& e.field("type"@) matches Some(t) && t.text() is Some
    &&& e.field("name"@) matches Some(n) && n.text() is Some
    &&& e.field("count"@) matches Some(c) && c.signed() is Some
}

pub open spec fn all_complete(es: Seq<Json>) -> bool {
    forall|j: int| 0 <= j < es.len() ==> entry_complete(#[trigger] es[j])
}

/// The message for an incomplete entry: its type is read first, then its
/// name and its count (allocated resources), or its count and its name
/// (requested ones).
pub open spec fn entry_error(e: Json, name_first: bool) -> Option<Seq<char>> {
    let t = required_text(e, "type"@, "Could not get type from tres"@, "Could not get type as string from tres"@);
    let n = required_text(e, "name"@, "Could not get name from tres"@, "Could not get name as string from tres"@);
    let c = required_signed(e, "count"@, "Could not get count from tres"@, "Could not get count as u64 from tres"@);
    match t {
        Err(m) => Some(m),
        Ok(_) => if name_first {
            match n {
                Err(m) => Some(m),
                Ok(_) => match c {
                    Err(m) => Some(m),
                    Ok(_) => None,
                },
            }
        } else {
            match c {
                Err(m) => Some(m),
                Ok(_) => match n {
                    Err(m) => Some(m),
                    Ok(_) => None,
                },
            }
        },
    }
}

/// The message for the first incomplete entry of `es`, if any.
pub open spec fn entries_error(es: Seq<Json>, name_first: bool) -> Option<Seq<char>>
    decreases es.len(),
{
    if es.len() == 0 {
        None
    } else {
        match entries_error(es.drop_last(), name_first) {
            Some(m) => Some(m),
            None => entry_error(es.last(), name_first),
        }
    }
}

/// Whether, for every run of complete entries from the start of `es`, the
/// total of each resource that is summed fits in a `u64` (the sums would
/// overflow otherwise). Energy is summed only where `energy` holds.
pub open spec fn sums_fit(es: Seq<Json>, energy: bool) -> bool {
    forall|k: int, r: Resource|
        0 <= k <= es.len() && (energy || r != Resource::Energy) && all_complete(es.take(k))
            ==> #[trigger] tres_total(es.take(k), r) <= u64::MAX
}

/// The characters of the strings among `items`, in order.
pub open spec fn json_strings(items: Seq<Json>) -> Seq<Seq<char>>
    decreases items.len(),
{
    if items.len() == 0 {
        Seq::empty()
    } else {
        let before = json_strings(items.drop_last());
        match items.last().text() {
            Some(t) => before.push(t),
            None => before,
        }
    }
}

/// Every state a record reports: `state.current` is a string or a list in
/// which at least one element is a string.
pub open spec fn job_states(value: Json) -> Result<Seq<Seq<char>>, Seq<char>> {
    match value.field("state"@) {
        None => Err("Could not get state from job"@),
        Some(s) => match s.field("current"@) {
            None => Err("Could not get state from job"@),
            Some(c) => match c.text() {
                Some(t) => Ok(seq![t]),
                None => match c.items() {
                    Some(items) => if json_strings(items).len() > 0 {
                        Ok(json_strings(items))
                    } else {
                        Err("Could not get state as string from job"@)
                    },
                    None => Err("Could not get state as string from job"@),
                },
            },
        },
    }
}

/// The id, user, account, cluster and node list of a record.
pub open spec fn job_head(value: Json) -> Result<(u64, Seq<char>, Seq<char>, Seq<char>, Seq<char>), Seq<char>> {
    match required_unsigned(value, "job_id"@, "Could not get id from job"@, "Could not get id as u64 from job"@) {
        Err(m) => Err(m),
        Ok(id) => match required_text(value, "user"@, "Could not get user from job"@, "Could not get user as string from job"@) {
            Err(m) => Err(m),
            Ok(user) => match required_text(value, "account"@, "Could not get account from job"@, "Could not get account as string from job"@) {
                Err(m) => Err(m),
                Ok(account) => match required_text(value, "cluster"@, "Could not get cluster from job"@, "Could not get cluster as string from job"@) {
                    Err(m) => Err(m),
                    Ok(cluster) => match required_text(value, "nodes"@, "Could not get nodes from job"@, "Could not get nodes as string from job"@) {
                        Err(m) => Err(m),
                        Ok(nodes) => Ok((id, user, account, cluster, nodes)),
                    },
                },
            },
        },
    }
}

/// The `time` object of a record with its start, end and elapsed seconds,
/// as Slurm gives them.
pub open spec fn time_fields(value: Json) -> Result<(Json, i64, i64, i64), Seq<char>> {
    match value.field("time"@) {
        None => Err("Could not get time from job"@),
        Some(t) => match required_signed(t, "start"@, "Could not get start_time from job"@, "Could not get start_time as i64 from job"@) {
            Err(m) => Err(m),
            Ok(s) => match required_signed(t, "end"@, "Could not get end_time from job"@, "Could not get end_time as i64 from job"@) {
                Err(m) => Err(m),
                Ok(e) => match required_signed(t, "elapsed"@, "Could not get duration from job"@, "Could not get duration as u64 from job"@) {
                    Err(m) => Err(m),
                    Ok(d) => Ok((t, s, e, d)),
                },
            },
        },
    }
}

/// The times of a record, in UNIX seconds.
#[derive(Debug, Clone, Copy, PartialEq, Eq, Structural)]
pub struct JobTimes {
    pub start: i64,
    pub end: i64,
    pub eligible: i64,
    pub submission: i64,
    /// The elapsed seconds as Slurm gives them, negative ones included.
    pub elapsed: i64,
}

/// An optional time of `t`: the second it gives where chrono has a date for
/// it, and `fallback` where it gives none, none that is an integer, or one
/// chrono has no date for.
pub open spec fn optional_second(t: Json, key: Seq<char>, fallback: i64) -> i64 {
    match t.field(key) {
        Some(x) => match x.signed() {
            Some(s) => known_second(s, fallback),
            None => fallback,
        },
        None => fallback,
    }
}

/// The times of a record. A start or end that chrono has no date for is
/// `now`; a missing eligible time is the start, and a missing submission
/// time the eligible time.
pub open spec fn job_times(value: Json, now: i64) -> Result<JobTimes, Seq<char>> {
    match time_fields(value) {
        Err(m) => Err(m),
        Ok((t, s, e, d)) => {
            let start = known_second(s, now);
            let eligible = optional_second(t, "eligible"@, start);
            Ok(
                JobTimes {
                    start,
                    end: known_second(e, now),
                    eligible,
                    submission: optional_second(t, "submission"@, eligible),
                    elapsed: d,
                },
            )
        },
    }
}

/// The allocated and requested entries of a record, once all are complete.
pub open spec fn job_tres(value: Json) -> Result<(Seq<Json>, Seq<Json>), Seq<char>> {
    match value.field("tres"@) {
        None => Err("Could not get tres from job"@),
        Some(t) => match t.field("allocated"@) {
            None => Err("Could not get allocated from job"@),
            Some(a) => match a.items() {
                None => Err("Could not get allocated as object from job"@),
                Some(allocated) => match entries_error(allocated, true) {
                    Some(m) => Err(m),
                    None => match t.field("requested"@) {
                        None => Err("Could not get requested from job"@),
                        Some(q) => match q.items() {
                            None => Err("Could not get requested as object from job"@),
                            Some(requested) => match entries_error(requested, false) {
                                Some(m) => Err(m),
                                None => Ok((allocated, requested)),
                            },
                        },
                    },
                },
            },
        },
    }
}

pub open spec fn qos_field(value: Json) -> Result<Seq<char>, Seq<char>> {
    required_text(value, "qos"@, "Could not get qos from job"@, "Could not get qos as string from job"@)
}

/// How many times the job had been requeued; 0 where the record does not say.
pub open spec fn restart_count_of(value: Json) -> u64 {
    match value.field("restart_cnt"@) {
        Some(c) => match c.unsigned() {
            Some(n) => n,
            None => 0,
        },
        None => 0,
    }
}

/// The node Slurm blamed for a node failure; empty where it names none.
pub open spec fn failed_node_of(value: Json) -> Seq<char> {
    match value.field("failed_node"@) {
        Some(n) => match n.text() {
            Some(t) => t,
            None => Seq::empty(),
        },
        None => Seq::empty(),
    }
}

/// What one job record in Slurm's JSON says.
pub struct JobRecord {
    pub id: u64,
    pub user: Seq<char>,
    pub account: Seq<char>,
    pub cluster: Seq<char>,
    pub node_names: Seq<char>,
    pub times: JobTimes,
    pub states: Seq<Seq<char>>,
    pub restart_count: u64,
    pub failed_node: Seq<char>,
    pub qos: Seq<char>,
    pub allocated: Seq<Json>,
    pub requested: Seq<Json>,
}

/// What the job record `value` says, read in Slurm's field order; or the
/// message for the first thing missing or of the wrong kind.
pub open spec fn job_record(value: Json, now: i64) -> Result<JobRecord, Seq<char>> {
    match job_head(value) {
        Err(m) => Err(m),
        Ok((id, user, account, cluster, node_names)) => match job_times(value, now) {
            Err(m) => Err(m),
            Ok(times) => match job_states(value) {
                Err(m) => Err(m),
                Ok(states) => match qos_field(value) {
                    Err(m) => Err(m),
                    Ok(qos) => match job_tres(value) {
                        Err(m) => Err(m),
                        Ok((allocated, requested)) => Ok(
                            JobRecord {
                                id,
                                user,
                                account,
                                cluster,
                                node_names,
                                times,
                                states,
                                restart_count: restart_count_of(value),
                                failed_node: failed_node_of(value),
                                qos,
                                allocated,
                                requested,
                            },
                        ),
                    },
                },
            },
        },
    }
}

/// The inputs on which reading a record does not panic: an elapsed time
/// within `Duration::seconds`' range, once it is read, and resource sums
/// that fit in a `u64`, once they are summed.
pub open spec fn record_in_range(value: Json) -> bool {
    &&& job_head(value) is Ok ==> match time_fields(value) {
        Ok((_, _, _, d)) => -ELAPSED_LIMIT <= d <= ELAPSED_LIMIT,
        Err(_) => true,
    }
    &&& (job_head(value) is Ok && time_fields(value) is Ok && job_states(value) is Ok && qos_field(value) is Ok)
        ==> tres_in_range(value)
}

pub open spec fn tres_in_range(value: Json) -> bool {
    match value.field("tres"@) {
        Some(t) => match t.field("allocated"@) {
            Some(a) => match a.items() {
                Some(allocated) => sums_fit(allocated, true) && (entries_error(allocated, true) is None
                    ==> match t.field("requested"@) {
                    Some(q) => match q.items() {
                        Some(requested) => sums_fit(requested, false),
                        None => true,
                    },
                    None => true,
                }),
                None => true,
            },
            None => true,
        },
        None => true,
    }
}

/// The node type that `nodes` gives the node list `name`.
pub open spec fn node_for(nodes: SlurmNodes, name: Seq<char>) -> SlurmNode {
    if nodes.node_map().contains_key(name) {
        nodes.node_map()[name]
    } else {
        nodes.default_node()
    }
}

/// Whether `job` holds what `rec` says, with the node type that `nodes`
/// gives its node list, as its own last attempt.
pub open spec fn holds_record(job: SlurmJob, rec: JobRecord, nodes: SlurmNodes) -> bool {
    &&& job.id == rec.id
    &&& job.user@ == rec.user
    &&& job.account@ == rec.account
    &&& job.cluster@ == rec.cluster
    &&& job.node_info == node_for(nodes, rec.node_names)
    &&& job.start_time == rec.times.start
    &&& job.original_start_time == rec.times.start
    &&& job.eligible_time == rec.times.eligible
    &&& job.end_time == rec.times.end
    &&& job.submission_time == rec.times.submission
    &&& job.restart_count == rec.restart_count
    &&& job.duration == (if rec.times.elapsed >= 0 {
        rec.times.elapsed as int
    } else {
        0
    })
    &&& job.states@.map_values(|s: String| s@) == rec.states
    &&& job.failed_node@ == rec.failed_node
    &&& job.attempt == Attempt::Base
    &&& job.qos@ == rec.qos
    &&& job.nodes == tres_total(rec.allocated, Resource::Node)
    &&& job.cpus == tres_total(rec.allocated, Resource::Cpu)
    &&& job.gpus == tres_total(rec.allocated, Resource::Gpu)
    &&& job.memory == tres_total(rec.allocated, Resource::Memory)
    &&& job.energy == tres_total(rec.allocated, Resource::Energy)
    &&& job.billing == tres_total(rec.allocated, Resource::Billing)
    &&& job.requested_nodes == tres_total(rec.requested, Resource::Node)
    &&& job.requested_cpus == tres_total(rec.requested, Resource::Cpu)
    &&& job.requested_gpus == tres_total(rec.requested, Resource::Gpu)
    &&& job.requested_memory == tres_total(rec.requested, Resource::Memory)
    &&& job.requested_billing == tres_total(rec.requested, Resource::Billing)
}

/// An incomplete entry stops the reading at the first one.
proof fn lemma_entries_error_stops(s: Seq<Json>, k: int, name_first: bool)
    requires
        0 <= k <= s.len(),
        entries_error(s.take(k), name_first) is Some,
    ensures
        entries_error(s, name_first) == entries_error(s.take(k), name_first),
    decreases s.len() - k,
{
    if k < s.len() {
        assert(s.take(k + 1).drop_last() =~= s.take(k));
        lemma_entries_error_stops(s, k + 1, name_first);
    } else {
        assert(s.take(k) =~= s);
    }
}

/// Running totals of the resources that a record's entries count.
struct Totals {
    nodes: u64,
    cpus: u64,
    memory: u64,
    gpus: u64,
    energy: u64,
    billing: u64,
}

/// Whether `t` holds the totals of `es`; energy only where `energy` holds,
/// and 0 otherwise.
spec fn totals_of(t: Totals, es: Seq<Json>, energy: bool) -> bool {
    &&& t.nodes == tres_total(es, Resource::Node)
    &&& t.cpus == tres_total(es, Resource::Cpu)
    &&& t.memory == tres_total(es, Resource::Memory)
    &&& t.gpus == tres_total(es, Resource::Gpu)
    &&& t.billing == tres_total(es, Resource::Billing)
    &&& t.energy == (if energy {
        tres_total(es, Resource::Energy)
    } else {
        0
    })
}

/// The totals of the resources in `entries`: allocated ones (`allocated`,
/// read type, name, count; energy counted) or requested ones (read type,
/// count, name; energy not counted).
fn sum_entries(entries: &Vec<Json>, allocated: bool) -> (r: Result<Totals, Error>)
    requires
        sums_fit(entries@, allocated),
    ensures
        match r {
            Ok(t) => entries_error(entries@, allocated) is None && totals_of(t, entries@, allocated),
            Err(e) => e is Call && entries_error(entries@, allocated) == Some(e.text()),
        },
{
    let mut t = Totals { nodes: 0, cpus: 0, memory: 0, gpus: 0, energy: 0, billing: 0 };
    let mut i: usize = 0;
    assert(entries@.take(0) =~= Seq::<Json>::empty());
    while i < entries.len()
        invariant
            i <= entries@.len(),
            sums_fit(entries@, allocated),
            entries_error(entries@.take(i as int), allocated) is None,
            all_complete(entries@.take(i as int)),
            totals_of(t, entries@.take(i as int), allocated),
        decreases entries@.len() - i,
    {
        let e = &entries[i];
        let ghost before = entries@.take(i as int);
        let ghost next = entries@.take(i + 1);
        assert(next.drop_last() =~= before);
        assert(next.last() == *e);
        let kind = match required_str(e, "type", "Could not get type from tres", "Could not get type as string from tres") {
            Ok(k) => k,
            Err(err) => {
                proof {
                    lemma_entries_error_stops(entries@, i + 1, allocated);
                }
                return Err(err);
            },
        };
        let name;
        let count;
        if allocated {
            name = match required_str(e, "name", "Could not get name from tres", "Could not get name as string from tres") {
                Ok(n) => n,
                Err(err) => {
                    proof {
                        lemma_entries_error_stops(entries@, i + 1, allocated);
                    }
                    return Err(err);
                },
            };
            count = match required_i64(e, "count", "Could not get count from tres", "Could not get count as u64 from tres") {
                Ok(c) => c,
                Err(err) => {
                    proof {
                        lemma_entries_error_stops(entries@, i + 1, allocated);
                    }
                    return Err(err);
                },
            };
        } else {
            count = match required_i64(e, "count", "Could not get count from tres", "Could not get count as u64 from tres") {
                Ok(c) => c,
                Err(err) => {
                    proof {
                        lemma_entries_error_stops(entries@, i + 1, allocated);
                    }
                    return Err(err);
                },
            };
            name = match required_str(e, "name", "Could not get name from tres", "Could not get name as string from tres") {
                Ok(n) => n,
                Err(err) => {
                    proof {
                        lemma_entries_error_stops(entries@, i + 1, allocated);
                    }
                    return Err(err);
                },
            };
        }
        let n: u64 = if count >= 0 {
            count as u64
        } else {
            0
        };
        proof {
            assert(entry_complete(*e));
            assert(entry_error(*e, allocated) is None);
            assert(entries_error(next, allocated) is None);
            assert forall|j: int| 0 <= j < next.len() implies entry_complete(#[trigger] next[j]) by {
                if j < i {
                    assert(next[j] == before[j]);
                }
            }
            assert(all_complete(next));
            assert(entry_count(*e) == n);
            assert forall|r: Resource| #[trigger] tres_total(next, r) == tres_total(before, r) + if entry_resource(*e) == Some(r) {
                n as int
            } else {
                0
            } by {}
            assert forall|r: Resource| allocated || r != Resource::Energy implies #[trigger] tres_total(next, r) <= u64::MAX by {
                assert(tres_total(entries@.take(i + 1), r) <= u64::MAX);
            }
        }
        if str_eq(kind, "cpu") {
            assert(entry_resource(*e) == Some(Resource::Cpu));
            assert(tres_total(next, Resource::Cpu) <= u64::MAX);
            t.cpus = t.cpus + n;
        } else if str_eq(kind, "mem") {
            assert(entry_resource(*e) == Some(Resource::Memory));
            assert(tres_total(next, Resource::Memory) <= u64::MAX);
            t.memory = t.memory + n;
        } else if str_eq(kind, "gres") {
            if str_eq(name, "gpu") {
                assert(entry_resource(*e) == Some(Resource::Gpu));
                assert(tres_total(next, Resource::Gpu) <= u64::MAX);
                t.gpus = t.gpus + n;
            } else {
                assert(entry_resource(*e) is None);
            }
        } else if str_eq(kind, "node") {
            assert(entry_resource(*e) == Some(Resource::Node));
            assert(tres_total(next, Resource::Node) <= u64::MAX);
            t.nodes = t.nodes + n;
        } else if str_eq(kind, "energy") {
            assert(entry_resource(*e) == Some(Resource::Energy));
            if allocated {
                assert(tres_total(next, Resource::Energy) <= u64::MAX);
                t.energy = t.energy + n;
            }
        } else if str_eq(kind, "billing") {
            assert(entry_resource(*e) == Some(Resource::Billing));
            assert(tres_total(next, Resource::Billing) <= u64::MAX);
            t.billing = t.billing + n;
        } else {
            assert(entry_resource(*e) is None);
        }
        i = i + 1;
    }
    assert(entries@.take(entries@.len() as int) =~= entries@);
    Ok(t)
}

/// The strings among `items`, in order.
fn strings_of(items: &Vec<Json>) -> (r: Vec<String>)
    ensures
        r@.map_values(|s: String| s@) == json_strings(items@),
{
    let mut out: Vec<String> = Vec::new();
    let mut i: usize = 0;
    assert(items@.take(0) =~= Seq::<Json>::empty());
    assert(out@.map_values(|s: String| s@) =~= Seq::<Seq<char>>::empty());
    while i < items.len()
        invariant
            i <= items@.len(),
            out@.map_values(|s: String| s@) == json_strings(items@.take(i as int)),
        decreases items@.len() - i,
    {
        assert(items@.take(i + 1).drop_last() =~= items@.take(i as int));
        assert(items@.take(i + 1).last() == items@[i as int]);
        match items[i].as_str() {
            Some(t) => {
                let ghost before = out@;
                out.push(String::from_str(t));
                assert(out@.map_values(|s: String| s@) =~= before.map_values(|s: String| s@).push(t@));
            },
            None => {},
        }
        i = i + 1;
    }
    assert(items@.take(items@.len() as int) =~= items@);
    out
}

/// Every state the record `value` reports.
fn states_of(value: &Json) -> (r: Result<Vec<String>, Error>)
    ensures
        match r {
            Ok(v) => job_states(*value) == Ok::<_, Seq<char>>(v@.map_values(|s: String| s@)),
            Err(e) => e is Call && job_states(*value) == Err::<Seq<Seq<char>>, _>(e.text()),
        },
{
    let state = match value.get("state") {
        Some(s) => s,
        None => return Err(call_error("Could not get state from job")),
    };
    let current = match state.get("current") {
        Some(c) => c,
        None => return Err(call_error("Could not get state from job")),
    };
    match current.as_str() {
        Some(t) => {
            let mut v: Vec<String> = Vec::new();
            v.push(String::from_str(t));
            assert(v@.map_values(|s: String| s@) =~= seq![t@]);
            Ok(v)
        },
        None => match current.as_array() {
            Some(items) => {
                let v = strings_of(items);
                if v.len() == 0 {
                    Err(call_error("Could not get state as string from job"))
                } else {
                    Ok(v)
                }
            },
            None => Err(call_error("Could not get state as string from job")),
        },
    }
}

/// The optional time `key` of `t`, or `fallback`.
fn optional_second_of(t: &Json, key: &str, fallback: i64) -> (r: i64)
    ensures
        r == optional_second(*t, key@, fallback),
{
    match t.get(key) {
        Some(x) => match x.as_i64() {
            Some(s) => if utc_second_exists(s) {
                s
            } else {
                fallback
            },
            None => fallback,
        },
        None => fallback,
    }
}

/// The times of the record `value`, with `now` for a start or end that
/// chrono has no date for.
fn times_of(value: &Json, now: i64) -> (r: Result<JobTimes, Error>)
    ensures
        match r {
            Ok(t) => job_times(*value, now) == Ok::<_, Seq<char>>(t),
            Err(e) => e is Call && job_times(*value, now) == Err::<JobTimes, _>(e.text()),
        },
{
    let t = match value.get("time") {
        Some(t) => t,
        None => return Err(call_error("Could not get time from job")),
    };
    let s = required_i64(t, "start", "Could not get start_time from job", "Could not get start_time as i64 from job")?;
    let e = required_i64(t, "end", "Could not get end_time from job", "Could not get end_time as i64 from job")?;
    let d = required_i64(t, "elapsed", "Could not get duration from job", "Could not get duration as u64 from job")?;
    let start = if utc_second_exists(s) {
        s
    } else {
        now
    };
    let end = if utc_second_exists(e) {
        e
    } else {
        now
    };
    let eligible = optional_second_of(t, "eligible", start);
    let submission = optional_second_of(t, "submission", eligible);
    Ok(JobTimes { start, end, eligible, submission, elapsed: d })
}

/// The totals of the allocated and of the requested resources of the
/// record `value`.
fn tres_of(value: &Json) -> (r: Result<(Totals, Totals), Error>)
    requires
        tres_in_range(*value),
    ensures
        match r {
            Ok((a, q)) => job_tres(*value) matches Ok((allocated, requested)) && totals_of(a, allocated, true)
                && totals_of(q, requested, false),
            Err(e) => e is Call && job_tres(*value) == Err::<(Seq<Json>, Seq<Json>), _>(e.text()),
        },
{
    let tres = match value.get("tres") {
        Some(t) => t,
        None => return Err(call_error("Could not get tres from job")),
    };
    let allocated = match tres.get("allocated") {
        Some(a) => match a.as_array() {
            Some(a) => a,
            None => return Err(call_error("Could not get allocated as object from job")),
        },
        None => return Err(call_error("Could not get allocated from job")),
    };
    let a = sum_entries(allocated, true)?;
    let requested = match tres.get("requested") {
        Some(q) => match q.as_array() {
            Some(q) => q,
            None => return Err(call_error("Could not get requested as object from job")),
        },
        None => return Err(call_error("Could not get requested from job")),
    };
    let q = sum_entries(requested, false)?;
    Ok((a, q))
}

impl SlurmJob {
    /// The job record that Slurm's JSON `value` describes, as its own last
    /// attempt, with the node type that `nodeinfos` gives its node list; a
    /// start or end that chrono has no date for is `now`.
    pub fn construct_at(value: &Json, nodeinfos: &SlurmNodes, now: i64) -> (r: Result<SlurmJob, Error>)
        requires
            record_in_range(*value),
        ensures
            match r {
                Ok(job) => job_record(*value, now) matches Ok(rec) && holds_record(job, rec, *nodeinfos),
                Err(e) => e is Call && job_record(*value, now) == Err::<JobRecord, Seq<char>>(e.text()),
            },
    {
        let id = required_u64(value, "job_id", "Could not get id from job", "Could not get id as u64 from job")?;
        let user = required_str(value, "user", "Could not get user from job", "Could not get user as string from job")?;
        let account = required_str(value, "account", "Could not get account from job", "Could not get account as string from job")?;
        let cluster = required_str(value, "cluster", "Could not get cluster from job", "Could not get cluster as string from job")?;
        let node_names = required_str(value, "nodes", "Could not get nodes from job", "Could not get nodes as string from job")?;
        let node_info = *nodeinfos.get(node_names);
        let times = times_of(value, now)?;
        let states = states_of(value)?;
        let restart_count = match value.get("restart_cnt") {
            Some(c) => match c.as_u64() {
                Some(n) => n,
                None => 0,
            },
            None => 0,
        };
        let failed_node = match value.get("failed_node") {
            Some(n) => match n.as_str() {
                Some(t) => String::from_str(t),
                None => String::new(),
            },
            None => String::new(),
        };
        let qos = required_str(value, "qos", "Could not get qos from job", "Could not get qos as string from job")?;
        let (allocated, requested) = tres_of(value)?;
        let duration: u64 = if times.elapsed >= 0 {
            times.elapsed as u64
        } else {
            0
        };
        Ok(SlurmJob {
            id,
            user: String::from_str(user),
            account: String::from_str(account),
            cluster: String::from_str(cluster),
            node_info,
            start_time: times.start,
            original_start_time: times.start,
            eligible_time: times.eligible,
            end_time: times.end,
            submission_time: times.submission,
            restart_count,
            duration,
            states,
            failed_node,
            attempt: Attempt::Base,
            qos: String::from_str(qos),
            nodes: allocated.nodes,
            cpus: allocated.cpus,
            gpus: allocated.gpus,
            memory: allocated.memory,
            requested_nodes: requested.nodes,
            requested_cpus: requested.cpus,
            requested_gpus: requested.gpus,
            requested_memory: requested.memory,
            energy: allocated.energy,
            billing: allocated.billing,
            requested_billing: requested.billing,
        })
    }
}

/// Whether `r` is what reading the record `value` gives, with `now` for a
/// start or end that chrono has no date for.
pub open spec fn read_as(r: Result<SlurmJob, Error>, value: Json, nodes: SlurmNodes, now: i64) -> bool {
    match r {
        Ok(job) => job_record(value, now) matches Ok(rec) && holds_record(job, rec, nodes),
        Err(e) => e is Call && job_record(value, now) == Err::<JobRecord, Seq<char>>(e.text()),
    }
}

impl SlurmJob {
    /// The job record that Slurm's JSON `value` describes, read at the
    /// clock's present second (which a start or end that chrono has no date
    /// for takes).
    pub fn construct(value: &Json, nodeinfos: &SlurmNodes) -> (r: Result<SlurmJob, Error>)
        requires
            record_in_range(*value),
        ensures
            exists|now: i64| #[trigger] read_as(r, *value, *nodeinfos, now),
    {
        let now = now_seconds();
        let r = SlurmJob::construct_at(value, nodeinfos, now);
        assert(read_as(r, *value, *nodeinfos, now));
        r
    }
}

/// Whether `records` are the records that `items` describe and that read
/// without error, in order.
pub open spec fn read_all(records: Seq<SlurmJob>, items: Seq<Json>, nodes: SlurmNodes, now: i64) -> bool
    decreases items.len(),
{
    if items.len() == 0 {
        records.len() == 0
    } else {
        match job_record(items.last(), now) {
            Ok(rec) => records.len() > 0 && holds_record(records.last(), rec, nodes) && read_all(
                records.drop_last(),
                items.drop_last(),
                nodes,
                now,
            ),
            Err(_) => read_all(records, items.drop_last(), nodes, now),
        }
    }
}

/// Whether every record of Slurm's `jobs` list can be read without panic.
pub open spec fn jobs_in_range(value: Json) -> bool {
    match value.field("jobs"@) {
        Some(j) => match j.items() {
            Some(items) => forall|k: int| 0 <= k < items.len() ==> record_in_range(#[trigger] items[k]),
            None => true,
        },
        None => true,
    }
}

/// Whether `r` is what `get_consumers` gives for Slurm's reply `value` over
/// the window from `start` to `end`, read at the second `now`: the window's
/// error where it ends before it starts; no records where the reply lists
/// no jobs; an error where the list is not an array; and otherwise the
/// records that read without error, each classified against all the others
/// and then clipped to the window, those that consumed nothing left out.
pub open spec fn consumers_read(
    r: Result<Vec<SlurmJob>, Error>,
    value: Json,
    start: i64,
    end: i64,
    nodes: SlurmNodes,
    now: i64,
) -> bool {
    if start > end {
        r matches Err(Error::Call(m)) && m@ == "Start time '"@ + time_text(start) + "' is after end time '"@
            + time_text(end) + "'"@
    } else {
        match value.field("jobs"@) {
            None => r matches Ok(c) && c@.len() == 0,
            Some(j) => match j.items() {
                None => r matches Err(e) && e is Call && e.text() == "Jobs is not an array"@,
                Some(items) => r matches Ok(c) && exists|records: Seq<SlurmJob>|
                    #[trigger] read_all(records, items, nodes, now) && c@ == clipped_consumers(
                        records.map(|i: int, job: SlurmJob| SlurmJob { attempt: classified(records, i), ..job }),
                        start,
                        end,
                    ),
            },
        }
    }
}

/// The records that `items` describe and that read without error, in
/// order; the others are passed over.
fn read_records(items: &Vec<Json>, nodeinfos: &SlurmNodes, now: i64) -> (r: Vec<SlurmJob>)
    requires
        forall|k: int| 0 <= k < items@.len() ==> record_in_range(#[trigger] items@[k]),
    ensures
        read_all(r@, items@, *nodeinfos, now),
{
    let mut records: Vec<SlurmJob> = Vec::new();
    let mut i: usize = 0;
    assert(items@.take(0) =~= Seq::<Json>::empty());
    while i < items.len()
        invariant
            i <= items@.len(),
            forall|k: int| 0 <= k < items@.len() ==> record_in_range(#[trigger] items@[k]),
            read_all(records@, items@.take(i as int), *nodeinfos, now),
        decreases items@.len() - i,
    {
        assert(items@.take(i + 1).drop_last() =~= items@.take(i as int));
        assert(items@.take(i + 1).last() == items@[i as int]);
        let read = SlurmJob::construct_at(&items[i], nodeinfos, now);
        match read {
            Ok(job) => {
                let ghost before = records@;
                records.push(job);
                assert(records@.drop_last() =~= before);
            },
            Err(_) => {},
        }
        i = i + 1;
    }
    assert(items@.take(items@.len() as int) =~= items@);
    records
}

impl SlurmJob {
    /// The records of Slurm's reply `value` that consumed something in the
    /// window from `start` to `end`, read at the second `now`: each record
    /// that reads without error (the others are passed over) is classified
    /// against all the others, then clipped to the window.
    pub fn get_consumers_at(value: &Json, start: i64, end: i64, nodeinfos: &SlurmNodes, now: i64) -> (r: Result<Vec<SlurmJob>, Error>)
        requires
            i64::MIN <= end - start <= i64::MAX,
            jobs_in_range(*value),
        ensures
            consumers_read(r, *value, start, end, *nodeinfos, now),
    {
        if start > end {
            return SlurmJob::consumers_of(Vec::new(), start, end);
        }
        match value.get("jobs") {
            None => Ok(Vec::new()),
            Some(j) => match j.as_array() {
                None => Err(call_error("Jobs is not an array")),
                Some(items) => {
                    let ghost listed = value.field("jobs"@)->Some_0.items()->Some_0;
                    assert(listed == items@);
                    assert forall|k: int| 0 <= k < items@.len() implies record_in_range(#[trigger] items@[k]) by {
                        assert(record_in_range(listed[k]));
                    }
                    let records = read_records(items, nodeinfos, now);
                    let ghost read = records@;
                    let r = SlurmJob::consumers_of(records, start, end);
                    assert(read_all(read, listed, *nodeinfos, now));
                    r
                },
            },
        }
    }

    /// The records of Slurm's reply `value` that consumed something in the
    /// window from `start` to `end`, read at the clock's present second.
    pub fn get_consumers(value: &Json, start: i64, end: i64, nodeinfos: &SlurmNodes) -> (r: Result<Vec<SlurmJob>, Error>)
        requires
            i64::MIN <= end - start <= i64::MAX,
            jobs_in_range(*value),
        ensures
            exists|now: i64| #[trigger] consumers_read(r, *value, start, end, *nodeinfos, now),
    {
        let now = now_seconds();
        let r = SlurmJob::get_consumers_at(value, start, end, nodeinfos, now);
        assert(consumers_read(r, *value, start, end, *nodeinfos, now));
        r
    }
}

/// No entry is incomplete exactly where no entry stops the reading.
proof fn lemma_entries_error_none(es: Seq<Json>, name_first: bool)
    ensures
        entries_error(es, name_first) is None <==> all_complete(es),
    decreases es.len(),
{
    if es.len() > 0 {
        lemma_entries_error_none(es.drop_last(), name_first);
        if all_complete(es) {
            assert(all_complete(es.drop_last())) by {
                assert forall|j: int| 0 <= j < es.drop_last().len() implies entry_complete(#[trigger] es.drop_last()[j]) by {
                    assert(es.drop_last()[j] == es[j]);
                }
            }
            assert(entry_complete(es[es.len() - 1]));
        }
        if entries_error(es, name_first) is None {
            assert forall|j: int| 0 <= j < es.len() implies entry_complete(#[trigger] es[j]) by {
                if j < es.len() - 1 {
                    assert(es.drop_last()[j] == es[j]);
                }
            }
        }
    } else {
        assert(all_complete(es));
    }
}

/// Whether the entry `e` has a string type, a string name and an integer
/// count.
fn entry_complete_check(e: &Json) -> (r: bool)
    ensures
        r == entry_complete(*e),
{
    let t = match e.get("type") {
        Some(t) => t.as_str().is_some(),
        None => false,
    };
    let n = match e.get("name") {
        Some(n) => n.as_str().is_some(),
        None => false,
    };
    let c = match e.get("count") {
        Some(c) => c.as_i64().is_some(),
        None => false,
    };
    t && n && c
}

/// Whether every run of complete entries from the start of `es` sums
/// within a `u64`; see `sums_fit`.
fn sums_fit_check(es: &Vec<Json>, energy: bool) -> (r: bool)
    ensures
        r == sums_fit(es@, energy),
{
    let mut totals: [u128; 6] = [0, 0, 0, 0, 0, 0];
    let ghost kinds = seq![Resource::Node, Resource::Cpu, Resource::Memory, Resource::Gpu, Resource::Energy, Resource::Billing];
    let mut i: usize = 0;
    assert(es@.take(0) =~= Seq::<Json>::empty());
    while i < es.len()
        invariant
            i <= es@.len(),
            kinds == seq![Resource::Node, Resource::Cpu, Resource::Memory, Resource::Gpu, Resource::Energy, Resource::Billing],
            all_complete(es@.take(i as int)),
            forall|m: int| 0 <= m < 6 && (energy || m != 4) ==> totals@[m] == tres_total(es@.take(i as int), #[trigger] kinds[m]),
            forall|k: int, r: Resource|
                0 <= k <= i && (energy || r != Resource::Energy) && all_complete(es@.take(k))
                    ==> #[trigger] tres_total(es@.take(k), r) <= u64::MAX,
        decreases es@.len() - i,
    {
        let ghost before = es@.take(i as int);
        let ghost next = es@.take(i + 1);
        assert(next.drop_last() =~= before);
        assert(next.last() == es@[i as int]);
        if !entry_complete_check(&es[i]) {
            proof {
                assert forall|k: int, r: Resource|
                    0 <= k <= es@.len() && (energy || r != Resource::Energy) && all_complete(es@.take(k))
                        implies #[trigger] tres_total(es@.take(k), r) <= u64::MAX by {
                    if k > i {
                        assert(es@.take(k)[i as int] == es@[i as int]);
                        assert(!entry_complete(es@.take(k)[i as int]));
                    }
                }
            }
            return true;
        }
        let count: i64 = match es[i].get("count") {
            Some(c) => match c.as_i64() {
                Some(c) => c,
                None => 0,
            },
            None => 0,
        };
        let n: u128 = if count >= 0 {
            count as u128
        } else {
            0
        };
        let kind = match es[i].get("type") {
            Some(t) => match t.as_str() {
                Some(k) => k,
                None => "",
            },
            None => "",
        };
        let name = match es[i].get("name") {
            Some(t) => match t.as_str() {
                Some(k) => k,
                None => "",
            },
            None => "",
        };
        let ghost e = es@[i as int];
        assert(e.field("type"@) matches Some(t) && t.text() == Some(kind@));
        assert(e.field("name"@) matches Some(t) && t.text() == Some(name@));
        let slot: usize = if str_eq(kind, "cpu") {
            assert(entry_resource(e) == Some(Resource::Cpu));
            1
        } else if str_eq(kind, "mem") {
            assert(entry_resource(e) == Some(Resource::Memory));
            2
        } else if str_eq(kind, "gres") {
            if str_eq(name, "gpu") {
                assert(entry_resource(e) == Some(Resource::Gpu));
                3
            } else {
                assert(entry_resource(e) is None);
                6
            }
        } else if str_eq(kind, "node") {
            assert(entry_resource(e) == Some(Resource::Node));
            0
        } else if str_eq(kind, "energy") {
            assert(entry_resource(e) == Some(Resource::Energy));
            4
        } else if str_eq(kind, "billing") {
            assert(entry_resource(e) == Some(Resource::Billing));
            5
        } else {
            assert(entry_resource(e) is None);
            6
        };
        proof {
            assert(entry_count(e) == n);
            assert forall|j: int| 0 <= j < next.len() implies entry_complete(#[trigger] next[j]) by {
                if j < i {
                    assert(next[j] == before[j]);
                }
            }
            assert forall|r: Resource| #[trigger] tres_total(next, r) == tres_total(before, r) + if entry_resource(e) == Some(r) {
                n as int
            } else {
                0
            } by {}
        }
        if slot < 6 && (energy || slot != 4) {
            assert(totals@[slot as int] == tres_total(before, kinds[slot as int]));
            assert(tres_total(before, kinds[slot as int]) <= u64::MAX) by {
                assert(es@.take(i as int) == before);
            }
            totals.set(slot, totals[slot] + n);
            if totals[slot] > 18446744073709551615u128 {
                proof {
                    assert(tres_total(next, kinds[slot as int]) > u64::MAX);
                    assert(es@.take(i + 1) == next);
                }
                return false;
            }
        }
        i = i + 1;
    }
    proof {
        assert(es@.take(es@.len() as int) =~= es@);
    }
    true
}

/// Whether every entry of `es` is complete.
fn all_complete_check(es: &Vec<Json>) -> (r: bool)
    ensures
        r == all_complete(es@),
{
    let mut i: usize = 0;
    while i < es.len()
        invariant
            i <= es@.len(),
            forall|j: int| 0 <= j < i ==> entry_complete(#[trigger] es@[j]),
        decreases es@.len() - i,
    {
        if !entry_complete_check(&es[i]) {
            return false;
        }
        i = i + 1;
    }
    true
}

/// Whether the resource sums of the record `value` fit; see `tres_in_range`.
fn tres_in_range_check(value: &Json) -> (r: bool)
    ensures
        r == tres_in_range(*value),
{
    let t = match value.get("tres") {
        Some(t) => t,
        None => return true,
    };
    let allocated = match t.get("allocated") {
        Some(a) => match a.as_array() {
            Some(a) => a,
            None => return true,
        },
        None => return true,
    };
    if !sums_fit_check(allocated, true) {
        return false;
    }
    proof {
        lemma_entries_error_none(allocated@, true);
    }
    if !all_complete_check(allocated) {
        return true;
    }
    match t.get("requested") {
        Some(q) => match q.as_array() {
            Some(requested) => sums_fit_check(requested, false),
            None => true,
        },
        None => true,
    }
}

impl SlurmJob {
    /// Whether the record `value` can be read without panic: what
    /// `construct` and `construct_at` ask of their caller.
    pub fn record_in_range_check(value: &Json) -> (r: bool)
        ensures
            r == record_in_range(*value),
    {
        let head_ok = required_u64(value, "job_id", "Could not get id from job", "Could not get id as u64 from job").is_ok()
            && required_str(value, "user", "Could not get user from job", "Could not get user as string from job").is_ok()
            && required_str(value, "account", "Could not get account from job", "Could not get account as string from job").is_ok()
            && required_str(value, "cluster", "Could not get cluster from job", "Could not get cluster as string from job").is_ok()
            && required_str(value, "nodes", "Could not get nodes from job", "Could not get nodes as string from job").is_ok();
        if !head_ok {
            return true;
        }
        match times_of(value, 0) {
            Err(_) => return true,
            Ok(t) => {
                if t.elapsed < -ELAPSED_LIMIT || t.elapsed > ELAPSED_LIMIT {
                    return false;
                }
            },
        }
        let states_ok = states_of(value).is_ok();
        let qos_ok = required_str(value, "qos", "Could not get qos from job", "Could not get qos as string from job").is_ok();
        if !(states_ok && qos_ok) {
            return true;
        }
        tres_in_range_check(value)
    }

    /// Whether every record in Slurm's reply `value` can be read without
    /// panic: what `get_consumers` and `get_consumers_at` ask of their caller.
    pub fn jobs_in_range_check(value: &Json) -> (r: bool)
        ensures
            r == jobs_in_range(*value),
    {
        let items = match value.get("jobs") {
            Some(j) => match j.as_array() {
                Some(items) => items,
                None => return true,
            },
            None => return true,
        };
        let ghost listed = value.field("jobs"@)->Some_0.items()->Some_0;
        assert(listed == items@);
        let mut i: usize = 0;
        while i < items.len()
            invariant
                i <= items@.len(),
                listed == items@,
                listed == value.field("jobs"@)->Some_0.items()->Some_0,
                value.field("jobs"@) is Some,
                value.field("jobs"@)->Some_0.items() is Some,
                forall|k: int| 0 <= k < i ==> record_in_range(#[trigger] items@[k]),
            decreases items@.len() - i,
        {
            if !SlurmJob::record_in_range_check(&items[i]) {
                assert(!record_in_range(listed[i as int]));
                return false;
            }
            i = i + 1;
        }
        assert forall|k: int| 0 <= k < listed.len() implies record_in_range(#[trigger] listed[k]) by {
            assert(record_in_range(items@[k]));
        }
        true
    }
}

/// The clock matters only to a record whose start or end chrono cannot
/// date: one whose times it can date reads the same whatever `now` is.
pub proof fn law_the_clock_only_fills_undated_times(value: Json, a: i64, b: i64)
    requires
        time_fields(value) matches Ok((_, s, e, _)) && utc_text(s as int) is Some && utc_text(e as int) is Some,
    ensures
        job_record(value, a) == job_record(value, b),
{
}

} // verus!
